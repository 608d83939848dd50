use vstd::prelude::*;
use crate::arena::{Color, Node};
use vstd::string::StringSliceAdditionalSpecFns;
use vstd::utf8::is_char_boundary;
use crate::doc::{
    buffer_for, lemma_span_frame, pieces_ok, slot_len, slot_lines, slot_text, slot_texts, span_text,
};
use crate::piece::{piece_text, piece_wf, BufferKind, Piece};
use crate::rebalance::same_payload;
use crate::shape::{
    agree_at, agree_on, char_sum, lemma_frame, lemma_links_occupied, lemma_links_weaken, line_sum, links, node_of, Shape,
};
use crate::shape_facts::lemma_subtree;
use crate::tree::PieceTree;

verus! {

/// The text a slot reads once it holds `p`.
pub open spec fn text_of_piece(p: Piece, ob: Seq<u8>, ab: Seq<u8>) -> Seq<u8> {
    piece_text(p, buffer_for(p.buffer_kind, ob, ab))
}

/// Trees with the same payload read the same, slot by slot.
pub proof fn lemma_payload_texts(a: PieceTree, b: PieceTree)
    requires
        same_payload(a, b),
    ensures
        b.texts() == a.texts(),
        b.doc() == a.doc(),
{
    assert forall|j: int| 0 <= j < a.nodes().len() implies #[trigger] slot_text(a.nodes(), a.original_bytes(), a.add_bytes(), j)
        == slot_text(b.nodes(), b.original_bytes(), b.add_bytes(), j) && slot_len(a.nodes(), j) == slot_len(b.nodes(), j)
        && slot_lines(a.nodes(), j) == slot_lines(b.nodes(), j) by {
        assert(b.nodes()[j] is Some == a.nodes()[j] is Some);
    }
    assert(b.texts() =~= a.texts());
    assert forall|j: int| 0 <= j < a.nodes().len() implies #[trigger] slot_text(a.nodes(), a.original_bytes(), a.add_bytes(), j)
        == slot_text(b.nodes(), b.original_bytes(), b.add_bytes(), j) && slot_len(a.nodes(), j) == slot_len(b.nodes(), j)
        && slot_lines(a.nodes(), j) == slot_lines(b.nodes(), j) by {
        assert(b.texts()[j] == a.texts()[j]);
    }
    lemma_span_frame(
        a.nodes(),
        b.nodes(),
        a.original_bytes(),
        a.add_bytes(),
        b.original_bytes(),
        b.add_bytes(),
        0,
        a.nodes().len() as int,
    );
}

/// Appending to the add buffer keeps every piece well formed and every slot's text.
pub proof fn lemma_add_extended(a: PieceTree, b: PieceTree, t: Seq<u8>, stale: Option<usize>, extra: Option<usize>)
    requires
        a.shaped(stale, extra),
        b.arena == a.arena,
        b.shape@ == a.shape@,
        b.root == a.root,
        b.original_buffer == a.original_buffer,
        b.add_bytes() == a.add_bytes() + t,
        b.add_bytes().len() <= usize::MAX,
    ensures
        b.shaped(stale, extra),
        b.texts() == a.texts(),
        b.doc() == a.doc(),
{
    reveal(PieceTree::shaped);
    let nodes = a.nodes();
    assert forall|i: int| 0 <= i < nodes.len() && #[trigger] nodes[i] is Some implies {
        &&& piece_wf(nodes[i].unwrap().piece, buffer_for(nodes[i].unwrap().piece.buffer_kind, b.original_bytes(), b.add_bytes()))
        &&& text_of_piece(nodes[i].unwrap().piece, b.original_bytes(), b.add_bytes()) == text_of_piece(nodes[i].unwrap().piece, a.original_bytes(), a.add_bytes())
    } by {
        let p = nodes[i].unwrap().piece;
        assert(piece_wf(p, buffer_for(p.buffer_kind, a.original_bytes(), a.add_bytes())));
        if p.buffer_kind == BufferKind::Add {
            assert(piece_text(p, b.add_bytes()) =~= piece_text(p, a.add_bytes()));
        }
    }
    assert forall|j: int| 0 <= j < nodes.len() implies #[trigger] slot_text(nodes, a.original_bytes(), a.add_bytes(), j)
        == slot_text(nodes, b.original_bytes(), b.add_bytes(), j) && slot_len(nodes, j) == slot_len(nodes, j)
        && slot_lines(nodes, j) == slot_lines(nodes, j) by {
        if nodes[j] is Some {
        }
    }
    assert(b.texts() =~= a.texts());
    lemma_span_frame(nodes, nodes, a.original_bytes(), a.add_bytes(), b.original_bytes(), b.add_bytes(), 0, nodes.len() as int);
}

/// Changing only the piece of node `k` keeps the links, with totals stale only above `k`.
pub proof fn lemma_set_piece_links(nodes: Seq<Option<Node>>, nodes2: Seq<Option<Node>>, t: Shape, top: Option<usize>, k: usize)
    requires
        t.ordered(),
        links(nodes, t, top, None),
        t.contains(k),
        nodes2.len() == nodes.len(),
        forall|j: usize| #[trigger] t.contains(j) && j != k ==> nodes2[j as int] == nodes[j as int],
        nodes2[k as int] is Some,
        node_of(nodes2, k).left == node_of(nodes, k).left,
        node_of(nodes2, k).right == node_of(nodes, k).right,
        node_of(nodes2, k).parent == node_of(nodes, k).parent,
        node_of(nodes2, k).left_char_count == node_of(nodes, k).left_char_count,
        node_of(nodes2, k).left_line_count == node_of(nodes, k).left_line_count,
    ensures
        links(nodes2, t, top, Some(k)),
        char_sum(nodes2, t) + node_of(nodes, k).piece.length == char_sum(nodes, t) + node_of(nodes2, k).piece.length,
        line_sum(nodes2, t) + node_of(nodes, k).piece.line_feed_count == line_sum(nodes, t)
            + node_of(nodes2, k).piece.line_feed_count,
    decreases t,
{
    lemma_links_occupied(nodes, t, top, None);
    if let Shape::Branch { id, left, right } = t {
        assert(t.contains(id));
        assert(agree_on(nodes, nodes2, *left) || left.contains(k)) by {
            if !left.contains(k) {
                assert forall|j: usize| #[trigger] left.contains(j) implies agree_at(nodes, nodes2, j) by {
                    assert(t.contains(j));
                }
            }
        }
        assert(agree_on(nodes, nodes2, *right) || right.contains(k)) by {
            if !right.contains(k) {
                assert forall|j: usize| #[trigger] right.contains(j) implies agree_at(nodes, nodes2, j) by {
                    assert(t.contains(j));
                }
            }
        }
        if k == id {
            assert(!left.contains(k));
            assert(!right.contains(k));
            lemma_frame(nodes, nodes2, *left, Some(id), None);
            lemma_frame(nodes, nodes2, *right, Some(id), None);
            lemma_links_weaken(nodes2, *left, Some(id), Some(k));
            lemma_links_weaken(nodes2, *right, Some(id), Some(k));
        } else if k < id {
            if right.contains(k) {
                assert(false);
            }
            assert forall|j: usize| #[trigger] left.contains(j) && j != k implies nodes2[j as int] == nodes[j as int] by {
                assert(t.contains(j));
            }
            lemma_set_piece_links(nodes, nodes2, *left, Some(id), k);
            lemma_frame(nodes, nodes2, *right, Some(id), None);
            lemma_links_weaken(nodes2, *right, Some(id), Some(k));
            assert(nodes2[id as int] == nodes[id as int]);
        } else {
            if left.contains(k) {
                assert(false);
            }
            assert forall|j: usize| #[trigger] right.contains(j) && j != k implies nodes2[j as int] == nodes[j as int] by {
                assert(t.contains(j));
            }
            lemma_set_piece_links(nodes, nodes2, *right, Some(id), k);
            lemma_frame(nodes, nodes2, *left, Some(id), None);
            lemma_links_weaken(nodes2, *left, Some(id), Some(k));
            assert(nodes2[id as int] == nodes[id as int]);
        }
    }
}

/// Giving node `k` a new well formed piece leaves the tree shaped up to the totals above
/// `k`, and changes only that slot's text.
pub proof fn lemma_piece_set(a: PieceTree, b: PieceTree, k: usize, p2: Piece)
    requires
        a.shaped(None, None),
        a.shape@.contains(k),
        b.nodes() == a.nodes().update(k as int, Some(Node { piece: p2, ..a.node(k) })),
        piece_wf(p2, buffer_for(p2.buffer_kind, a.original_bytes(), a.add_bytes())),
        b.shape@ == a.shape@,
        b.root == a.root,
        b.arena.free_slots() == a.arena.free_slots(),
        b.original_buffer == a.original_buffer,
        b.add_buffer == a.add_buffer,
        char_sum(a.nodes(), a.shape@) + p2.length <= usize::MAX + a.node(k).piece.length,
        line_sum(a.nodes(), a.shape@) + p2.line_feed_count < usize::MAX + a.node(k).piece.line_feed_count,
    ensures
        b.shaped(Some(k), None),
        char_sum(b.nodes(), b.shape@) + a.node(k).piece.length == char_sum(a.nodes(), a.shape@) + p2.length,
        line_sum(b.nodes(), b.shape@) + a.node(k).piece.line_feed_count == line_sum(a.nodes(), a.shape@)
            + p2.line_feed_count,
        b.texts() == a.texts().update(k as int, text_of_piece(p2, a.original_bytes(), a.add_bytes())),
        forall|i: usize| #[trigger] a.occupied(i) ==> b.occupied(i) && b.node(i).left == a.node(i).left
            && b.node(i).right == a.node(i).right && b.node(i).parent == a.node(i).parent
            && b.node(i).color == a.node(i).color,
{
    reveal(PieceTree::shaped);
    let nodes = a.nodes();
    let nodes2 = b.nodes();
    assert(a.occupied(k));
    assert forall|j: usize| #[trigger] a.shape@.contains(j) && j != k implies nodes2[j as int] == nodes[j as int] by {}
    lemma_set_piece_links(nodes, nodes2, a.shape@, None, k);
    assert forall|i: usize| #[trigger] b.occupied(i) == a.occupied(i) by {}
    assert forall|i: int| 0 <= i < nodes2.len() && #[trigger] nodes2[i] is Some implies piece_wf(
        nodes2[i].unwrap().piece,
        buffer_for(nodes2[i].unwrap().piece.buffer_kind, b.original_bytes(), b.add_bytes()),
    ) by {
        if i != k {
            assert(nodes[i] is Some);
        }
    }
    assert forall|q: int| 0 <= q < b.arena.free_slots().len() implies {
        &&& #[trigger] b.arena.free_slots()[q] < b.arena.slots().len()
        &&& b.arena.slots()[b.arena.free_slots()[q] as int] is None
    } by {
        assert(a.arena.free_slots()[q] < a.arena.slots().len());
        assert(a.arena.slots()[a.arena.free_slots()[q] as int] is None);
    }
    assert forall|i: int| 0 <= i < b.arena.slots().len() && #[trigger] b.arena.slots()[i] is None
        implies b.arena.free_slots().contains(i as usize) by {
        assert(a.arena.slots()[i] is None);
    }
    assert(b.texts() =~= a.texts().update(k as int, text_of_piece(p2, a.original_bytes(), a.add_bytes())));
}

} // verus!

verus! {

/// The document is the concatenation of the slot texts.
pub proof fn lemma_doc_joined(tree: PieceTree)
    ensures
        tree.doc() == crate::doc::joined(tree.texts()),
{
    crate::doc::lemma_joined_span(tree.nodes(), tree.original_bytes(), tree.add_bytes(), tree.nodes().len() as int);
    assert(tree.texts().take(tree.nodes().len() as int) =~= tree.texts());
}

impl PieceTree {
    /// Inserts `text` at byte `offset` of the document: the text is appended to the add
    /// buffer, and its piece gets a node in a slot opened where the offset falls in slot
    /// order (splitting the piece that holds the offset when the offset falls inside it).
    pub fn insert(&mut self, offset: usize, text: &str)
        requires
            old(self).wf(),
            offset <= old(self).doc().len(),
            old(self).add_bytes().len() + text.spec_bytes().len() <= usize::MAX,
            old(self).doc().len() + text.spec_bytes().len() <= usize::MAX,
            crate::lines::newline_count(old(self).doc()) + crate::lines::newline_count(text.spec_bytes()) < usize::MAX,
            old(self).nodes().len() + 2 < usize::MAX,
        ensures
            final(self).wf(),
            final(self).original_bytes() == old(self).original_bytes(),
            final(self).original_buffer == old(self).original_buffer,
            final(self).add_bytes() == old(self).add_bytes() + text.spec_bytes(),
            final(self).add_buffer.line_starts@ == old(self).add_buffer.line_starts@ + crate::buffer::shifted_offsets(
                crate::buffer::break_offsets(text.spec_bytes()),
                old(self).add_bytes().len() as int,
            ),
            old(self).add_buffer.line_starts@ == crate::buffer::break_offsets(old(self).add_bytes())
                ==> final(self).add_buffer.line_starts@ == crate::buffer::break_offsets(final(self).add_bytes()),
            final(self).doc() == old(self).doc().take(offset as int) + text.spec_bytes() + old(self).doc().skip(
                offset as int,
            ),
            final(self).nodes().len() <= old(self).nodes().len() + 2,
            final(self).root_black(),
            old(self).no_red_pairs() ==> final(self).no_red_pairs(),
            old(self).no_red_pairs() && old(self).black_balanced() ==> final(self).black_balanced(),
            old(self).aligned() && is_char_boundary(old(self).doc(), offset as int) ==> final(self).aligned(),
    {
        let ghost t_bytes = text.spec_bytes();
        let ghost keeps_aligned = old(self).aligned() && is_char_boundary(old(self).doc(), offset as int);
        let ghost ts = old(self).texts();
        let ghost d = old(self).doc();
        proof {
            old(self).lemma_total_span();
            self.lemma_doc_is_tree(None);
            self.lemma_shaped_basics(None, None);
            old(self).lemma_in_bounds(None, None);
            vstd::utf8::encode_utf8_valid_utf8(text@);
            lemma_doc_joined(*old(self));
        }
        let (start, length) = self.add_buffer.append(text);
        proof {
            lemma_add_extended(*old(self), *self, t_bytes, None, None);
            crate::lines::lemma_newline_offsets_shape(t_bytes);
            if keeps_aligned {
                PieceTree::lemma_aligned_extended(*old(self), *self, t_bytes);
            }
        }
        proof {
            assert(self.arena == old(self).arena && self.shape == old(self).shape);
            if old(self).no_red_pairs() {
                assert forall|i: usize| #[trigger] self.red_pair(i) && self.shape@.contains(i) implies Some(i)
                    == None::<usize> by {
                    assert(old(self).red_pair(i));
                }
            }
        }
        let line_starts = crate::lines::line_feed_offsets(text.as_bytes());
        let piece = Piece::new(BufferKind::Add, start, length, line_starts);
        let piece_length = piece.length;
        let piece_lines = piece.line_feed_count;
        proof {
            let ab = self.add_bytes();
            assert(ab.subrange(start as int, start + length) =~= t_bytes);
            assert(piece_wf(piece, buffer_for(piece.buffer_kind, self.original_bytes(), ab)));
            assert(text_of_piece(piece, self.original_bytes(), ab) == t_bytes);
            if keeps_aligned {
                assert(crate::aligned::piece_aligned(piece, self.original_bytes(), self.add_bytes()));
            }
        }

        if offset == self.total_length {
            // the offset is the end of the document: the text gets a node in a new last slot
            let n = self.arena.slot_count();
            self.hang_piece_at(n, piece);
            proof {
                crate::doc::lemma_joined_insert_end(ts, t_bytes);
                assert(d.take(offset as int) =~= d);
                assert(d.skip(offset as int) =~= Seq::<u8>::empty());
            }
        } else {
            // the piece that holds the offset
            let (node_idx, local_offset) = match self.find_node_at_offset(offset) {
                None => return,
                Some(n) => n,
            };
            proof {
                old(self).lemma_texts_at(offset as int);
            }

            if local_offset == 0 {
                // the offset is at the start of a piece: the text gets a node in a slot
                // opened just before it
                self.hang_piece_at(node_idx, piece);
                proof {
                    crate::doc::lemma_joined_insert_at(ts, node_idx as int, t_bytes, offset as int);
                }
            } else {
                // the offset is inside a piece: split it, keep the left part in its node, and
                // give the text and the right part nodes in slots opened right after it
                let ghost split_from = *self;
                proof {
                    self.lemma_slot_piece(node_idx);
                }
                let existing_piece = self.arena.get(node_idx).piece.clone();
                let (left_piece, right_piece) = existing_piece.split_at(local_offset);
                proof {
                    self.lemma_split_facts(node_idx, existing_piece, left_piece, right_piece, local_offset as int, local_offset as int);
                    if keeps_aligned {
                        self.lemma_split_aligned(*old(self), t_bytes, node_idx, left_piece, right_piece, local_offset as int, offset as int);
                    }
                }
                self.arena.get_mut(node_idx).piece = left_piece;
                proof {
                    lemma_piece_set(split_from, *self, node_idx, left_piece);
                    if keeps_aligned {
                        PieceTree::lemma_aligned_set(split_from, *self, node_idx, left_piece);
                    }
                }
                let ghost trimmed = *self;
                proof {
                    if split_from.no_red_pairs() {
                        assert forall|j: usize| #[trigger] split_from.occupied(j) implies trimmed.node(j).left == split_from.node(
                            j,
                        ).left && trimmed.node(j).right == split_from.node(j).right && trimmed.node(j).parent
                            == split_from.node(j).parent && trimmed.node(j).color == split_from.node(j).color by {}
                        crate::coloring::lemma_pairs_kept(split_from, trimmed, None, None);
                        assert forall|i: usize| #[trigger] trimmed.red_pair(i) && trimmed.shape@.contains(i) implies Some(i)
                            == None::<usize> by {
                            assert(split_from.red_pair(i));
                        }
                    }
                }
                self.update_metadata(node_idx, Ghost(None));
                proof {
                    if split_from.no_red_pairs() {
                        trimmed.lemma_shaped_basics(Some(node_idx), None);
                        crate::coloring::lemma_pairs_kept(trimmed, *self, Some(node_idx), None);
                        assert forall|i: usize| #[trigger] self.red_pair(i) && self.shape@.contains(i) implies Some(i)
                            == None::<usize> by {
                            assert(trimmed.red_pair(i));
                        }
                    }
                    lemma_payload_texts(trimmed, *self);
                    if keeps_aligned {
                        PieceTree::lemma_aligned_payload(trimmed, *self);
                    }
                    if split_from.black_balanced() {
                        split_from.lemma_shaped_basics(None, None);
                        trimmed.lemma_shaped_basics(Some(node_idx), None);
                        assert forall|j: usize| #[trigger] self.shape@.contains(j) implies crate::shape::node_of(
                            self.nodes(),
                            j,
                        ).color == crate::shape::node_of(split_from.nodes(), j).color by {
                            assert(split_from.occupied(j));
                            assert(trimmed.occupied(j));
                        }
                        crate::coloring::lemma_black_frame(split_from.nodes(), self.nodes(), self.shape@);
                    }
                }
                proof {
                    if keeps_aligned {
                        assert(self.aligned());
                        assert(crate::aligned::piece_aligned(piece, self.original_bytes(), self.add_bytes()));
                    }
                }
                self.hang_piece_at(node_idx + 1, piece);
                proof {
                    if keeps_aligned {
                        assert(self.aligned());
                        assert(crate::aligned::piece_aligned(right_piece, self.original_bytes(), self.add_bytes()));
                    }
                }
                self.hang_piece_at(node_idx + 2, right_piece);
                proof {
                    crate::doc::lemma_joined_split_insert(ts, node_idx as int, local_offset as int, t_bytes, offset as int);
                }
            }
        }
        let ghost counted = *self;
        proof {
            assert(old(self).no_red_pairs() ==> counted.no_red_pairs());
            assert(old(self).no_red_pairs() && old(self).black_balanced() ==> counted.black_balanced());
        }
        self.total_length = self.total_length + piece_length;
        self.total_lines = self.total_lines + piece_lines;
        proof {
            PieceTree::lemma_shaped_same(counted, *self, None, None);
            self.lemma_shaped_basics(None, None);
            if counted.no_red_pairs() {
                assert forall|i: usize| #[trigger] self.red_pair(i) && self.shape@.contains(i) implies Some(i)
                    == None::<usize> by {
                    assert(counted.red_pair(i));
                }
            }
            lemma_doc_joined(*self);
            if keeps_aligned {
                PieceTree::lemma_aligned_same(counted, *self);
            }
        }
    }
}

} // verus!
