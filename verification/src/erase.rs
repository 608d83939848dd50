use vstd::prelude::*;
use crate::arena::{Color, Node};
use crate::doc::{buffer_for, joined, slot_len, span_len};
use crate::edit::{lemma_doc_joined, lemma_payload_texts, text_of_piece};
use crate::lines::newline_count;
use crate::piece::{piece_text, piece_wf, Piece};
use crate::shape::{char_sum, line_sum};
use crate::tree::PieceTree;
use vstd::utf8::is_char_boundary;

verus! {

impl PieceTree {
    /// Byte `o` of the document is where some slot starts (or the document ends).
    pub open spec fn at_slot_start(&self, o: int) -> bool {
        exists|j: int| 0 <= j <= self.nodes().len() && #[trigger] span_len(self.nodes(), 0, j) == o
    }

    /// Deleting `length` bytes at `start` falls strictly inside one piece, which is then
    /// split.
    pub open spec fn splits_piece(&self, start: int, length: int) -> bool {
        &&& length > 0
        &&& start < self.doc().len()
        &&& self.piece_at(start).1 > 0
        &&& self.piece_at(start).1 + length < self.texts()[self.piece_at(start).0].len()
    }

    /// The document after deleting `length` bytes at `start`: those bytes, as far as the
    /// document reaches, are gone.
    pub open spec fn deleted_doc(&self, start: int, length: int) -> Seq<u8> {
        let d = self.doc();
        if length == 0 || start >= d.len() {
            d
        } else {
            d.take(start) + d.skip(if start + length < d.len() { start + length } else { d.len() as int })
        }
    }

    /// A document position where a slot starts is the start of the piece that holds it.
    pub proof fn lemma_slot_start_local(&self, o: int)
        requires
            self.shaped(None, None),
            self.at_slot_start(o),
            0 <= o < self.doc().len(),
        ensures
            self.piece_at(o).1 == 0,
    {
        let nodes = self.nodes();
        let j = choose|j: int| 0 <= j <= self.nodes().len() && #[trigger] span_len(self.nodes(), 0, j) == o;
        self.lemma_piece_at(o);
        let k = self.piece_at(o).0;
        if k < j {
            crate::doc::lemma_span_len_mono(nodes, 0, k + 1, j);
            crate::doc::lemma_span_split(nodes, Seq::empty(), Seq::empty(), 0, k, k + 1);
            crate::doc::lemma_span_single(nodes, Seq::empty(), Seq::empty(), k);
        } else {
            crate::doc::lemma_span_len_mono(nodes, 0, j, k);
        }
    }

    /// Replacing slot `k`'s text by its bytes before `l` and from `m` on cuts those bytes
    /// out of the document.
    pub proof fn lemma_cut_doc(&self, k: usize, l: int, m: int)
        requires
            self.shaped(None, None),
            self.occupied(k),
            0 <= l <= m <= self.node(k).piece.length,
        ensures
            joined(self.texts().update(k as int, self.texts()[k as int].take(l) + self.texts()[k as int].skip(m)))
                == self.doc().take(self.bytes_before(k as int) + l) + self.doc().skip(self.bytes_before(k as int) + m),
            self.texts()[k as int].len() == self.node(k).piece.length,
    {
        self.lemma_shaped_basics(None, None);
        self.lemma_slot_piece(k);
        crate::doc::lemma_slot_text_shape(self.nodes(), self.original_bytes(), self.add_bytes(), k as int);
        crate::doc::lemma_texts_prefix(self.nodes(), self.original_bytes(), self.add_bytes(), k as int);
        lemma_doc_joined(*self);
        crate::doc::lemma_cut_range(self.texts(), k as int, l, m);
    }

    /// A slot whose start in the document is `o` keeps it when only later slots change.
    pub proof fn lemma_slot_start_kept(a: PieceTree, b: PieceTree, j: int, o: int)
        requires
            a.shaped(None, None),
            b.shaped(None, None),
            0 <= j <= a.nodes().len(),
            j <= b.nodes().len(),
            span_len(a.nodes(), 0, j) == o,
            b.texts().take(j) == a.texts().take(j),
        ensures
            b.at_slot_start(o),
    {
        a.lemma_shaped_basics(None, None);
        b.lemma_shaped_basics(None, None);
        crate::doc::lemma_texts_prefix(a.nodes(), a.original_bytes(), a.add_bytes(), j);
        crate::doc::lemma_texts_prefix(b.nodes(), b.original_bytes(), b.add_bytes(), j);
        assert(span_len(b.nodes(), 0, j) == o);
    }
}

} // verus!

verus! {

/// Cutting more bytes at the same place of a document that already lost some there.
pub proof fn lemma_double_cut(d0: Seq<u8>, s: int, d: int, e: int)
    requires
        0 <= s,
        0 <= d,
        0 <= e,
        s + d + e <= d0.len(),
    ensures
        (d0.take(s) + d0.skip(s + d)).take(s) + (d0.take(s) + d0.skip(s + d)).skip(s + e) == d0.take(s) + d0.skip(
            s + d + e,
        ),
{
    let x = d0.take(s) + d0.skip(s + d);
    assert(x.take(s) =~= d0.take(s));
    assert(x.skip(s + e) =~= d0.skip(s + d + e));
}

/// A text cut in two parts and a middle has no more line feeds in the parts than in all.
pub proof fn lemma_parts_lines(x: Seq<u8>, l: int, m: int)
    requires
        0 <= l <= m <= x.len(),
    ensures
        newline_count(x.take(l)) + newline_count(x.skip(m)) <= newline_count(x),
        newline_count(x.skip(l)) <= newline_count(x),
        newline_count(x.take(l)) <= newline_count(x),
{
    crate::lines::lemma_newline_count_concat(x.take(l), x.skip(l));
    assert(x.take(l) + x.skip(l) =~= x);
    let y = x.skip(l);
    crate::lines::lemma_newline_count_concat(y.take(m - l), y.skip(m - l));
    assert(y.take(m - l) + y.skip(m - l) =~= y);
    assert(y.skip(m - l) =~= x.skip(m));
}

} // verus!

verus! {

impl PieceTree {
    /// A piece trimmed to bytes `l..m` of the piece in slot `k` is well formed and reads as
    /// those bytes.
    pub proof fn lemma_trimmed_facts(&self, k: usize, p2: Piece, l: int, m: int, at_start: bool)
        requires
            self.shaped(None, None),
            self.occupied(k),
            0 <= l <= m <= self.node(k).piece.length,
            at_start ==> l == 0,
            !at_start ==> m == self.node(k).piece.length,
            p2.buffer_kind == self.node(k).piece.buffer_kind,
            p2.start == self.node(k).piece.start + (if at_start { m } else { 0 }),
            p2.length == (if at_start { self.node(k).piece.length - m } else { l }),
            forall|buf: Seq<u8>| #[trigger] piece_wf(self.node(k).piece, buf) ==> piece_wf(p2, buf),
        ensures
            piece_wf(p2, buffer_for(p2.buffer_kind, self.original_bytes(), self.add_bytes())),
            text_of_piece(p2, self.original_bytes(), self.add_bytes()) == self.texts()[k as int].take(l)
                + self.texts()[k as int].skip(m),
            p2.line_feed_count <= self.node(k).piece.line_feed_count,
            p2.length + (m - l) == self.node(k).piece.length,
    {
        self.lemma_slot_piece(k);
        let p = self.node(k).piece;
        let buf = self.buffer_of(k);
        assert(piece_wf(p2, buf));
        let x = self.texts()[k as int];
        assert(x == piece_text(p, buf));
        lemma_parts_lines(x, l, m);
        if at_start {
            assert(piece_text(p2, buf) =~= x.take(l) + x.skip(m));
        } else {
            assert(piece_text(p2, buf) =~= x.take(l) + x.skip(m));
        }
    }

    /// The two outer parts of a piece split around bytes `l..m` are well formed and read as
    /// those parts.
    pub proof fn lemma_split_facts(&self, k: usize, orig: Piece, left: Piece, right: Piece, l: int, m: int)
        requires
            self.shaped(None, None),
            self.occupied(k),
            0 < l <= m < self.node(k).piece.length,
            crate::piece::same_piece(orig, self.node(k).piece),
            left.buffer_kind == orig.buffer_kind,
            left.start == orig.start,
            left.length == l,
            right.buffer_kind == orig.buffer_kind,
            right.start == orig.start + m,
            right.length == orig.length - m,
            forall|buf: Seq<u8>| #[trigger] piece_wf(orig, buf) ==> piece_wf(left, buf) && piece_wf(right, buf),
        ensures
            piece_wf(left, buffer_for(left.buffer_kind, self.original_bytes(), self.add_bytes())),
            piece_wf(right, buffer_for(right.buffer_kind, self.original_bytes(), self.add_bytes())),
            text_of_piece(left, self.original_bytes(), self.add_bytes()) == self.texts()[k as int].take(l),
            text_of_piece(right, self.original_bytes(), self.add_bytes()) == self.texts()[k as int].skip(m),
            left.line_feed_count + right.line_feed_count <= orig.line_feed_count,
            m == l ==> left.line_feed_count + right.line_feed_count == orig.line_feed_count,
            left.length + right.length + (m - l) == orig.length,
    {
        self.lemma_slot_piece(k);
        let p = self.node(k).piece;
        let buf = self.buffer_of(k);
        crate::piece::lemma_same_piece_wf(orig, p, buf);
        assert(piece_wf(left, buf) && piece_wf(right, buf));
        let x = self.texts()[k as int];
        assert(x == piece_text(p, buf));
        lemma_parts_lines(x, l, m);
        assert(piece_text(left, buf) =~= x.take(l));
        assert(piece_text(right, buf) =~= x.skip(m));
        if m == l {
            crate::lines::lemma_newline_count_concat(x.take(l), x.skip(l));
            assert(x.take(l) + x.skip(l) =~= x);
        }
    }

    /// After slot `k` was cut down to its first `l` bytes, the document position where those
    /// end is where the next slot starts.
    pub proof fn lemma_end_cut_start(&self, before: PieceTree, k: usize, l: int)
        requires
            before.shaped(None, None),
            self.shaped(None, None),
            before.occupied(k),
            0 <= l <= before.texts()[k as int].len(),
            self.texts() == before.texts().update(k as int, before.texts()[k as int].take(l)),
            self.nodes().len() == before.nodes().len(),
        ensures
            self.at_slot_start(before.bytes_before(k as int) + l),
    {
        before.lemma_shaped_basics(None, None);
        self.lemma_shaped_basics(None, None);
        let j = k + 1;
        crate::doc::lemma_texts_prefix(before.nodes(), before.original_bytes(), before.add_bytes(), k as int);
        crate::doc::lemma_texts_prefix(self.nodes(), self.original_bytes(), self.add_bytes(), j);
        let ts = self.texts();
        assert(ts.take(j).drop_last() =~= before.texts().take(k as int));
        assert(ts.take(j).last() == before.texts()[k as int].take(l));
        assert(span_len(self.nodes(), 0, j) == before.bytes_before(k as int) + l);
    }
}

} // verus!

verus! {

impl PieceTree {
    /// Deletes `delete_length` bytes from `local_offset` on in the piece of slot `node_idx`,
    /// where the deletion reaches from the piece's start or to its end: the node is removed
    /// when it covers the whole piece, else its piece is trimmed.
    #[verifier::rlimit(60)]
    fn delete_in_piece(&mut self, node_idx: usize, local_offset: usize, delete_length: usize)
        requires
            old(self).wf(),
            old(self).occupied(node_idx),
            delete_length > 0,
            local_offset + delete_length <= old(self).node(node_idx).piece.length,
            local_offset == 0 || local_offset + delete_length == old(self).node(node_idx).piece.length,
        ensures
            final(self).wf(),
            final(self).original_bytes() == old(self).original_bytes(),
            final(self).add_buffer == old(self).add_buffer,
            final(self).original_buffer == old(self).original_buffer,
            final(self).add_bytes() == old(self).add_bytes(),
            final(self).nodes().len() == old(self).nodes().len(),
            final(self).doc() == old(self).doc().take(old(self).bytes_before(node_idx as int) + local_offset)
                + old(self).doc().skip(old(self).bytes_before(node_idx as int) + local_offset + delete_length),
            final(self).at_slot_start(old(self).bytes_before(node_idx as int) + local_offset),
            old(self).aligned() && (0 < local_offset ==> is_char_boundary(
                old(self).doc(),
                old(self).bytes_before(node_idx as int) + local_offset,
            )) && (local_offset + delete_length < old(self).node(node_idx).piece.length ==> is_char_boundary(
                old(self).doc(),
                old(self).bytes_before(node_idx as int) + local_offset + delete_length,
            )) ==> final(self).aligned(),
            old(self).root_black() ==> final(self).root_black(),
            old(self).no_red_pairs() && old(self).black_balanced() ==> final(self).no_red_pairs() && final(self).black_balanced(),
    {
        let ghost before = *self;
        let ghost keeps_aligned = old(self).aligned() && (0 < local_offset ==> is_char_boundary(
            old(self).doc(),
            old(self).bytes_before(node_idx as int) + local_offset,
        )) && (local_offset + delete_length < old(self).node(node_idx).piece.length ==> is_char_boundary(
            old(self).doc(),
            old(self).bytes_before(node_idx as int) + local_offset + delete_length,
        ));
        let ghost kk = node_idx;
        let ghost l = local_offset as int;
        let ghost m = l + delete_length;
        proof {
            self.lemma_shaped_basics(None, None);
            self.lemma_slot_piece(node_idx);
        }
        let piece_length = self.arena.get(node_idx).piece.length;
        if local_offset == 0 && delete_length == piece_length {
            // the deletion covers the whole piece: remove its node
            let piece_lines = self.arena.get(node_idx).piece.line_feed_count;
            self.remove_node(node_idx);
            let ghost removed = *self;
            self.total_length = self.total_length - piece_length;
            self.total_lines = self.total_lines - piece_lines;
            proof {
                PieceTree::lemma_shaped_same(removed, *self, None, None);
                crate::detach::lemma_rb_kept(removed, *self);
                if keeps_aligned {
                    PieceTree::lemma_aligned_same(removed, *self);
                }
                assert(self.texts() == removed.texts());
                assert(self.doc() == removed.doc());
                before.lemma_cut_doc(kk, l, m);
                assert(before.texts()[kk as int].take(0) + before.texts()[kk as int].skip(m) =~= Seq::<u8>::empty());
                assert(self.texts().take(kk as int) =~= before.texts().take(kk as int));
                PieceTree::lemma_slot_start_kept(before, *self, kk as int, before.bytes_before(kk as int) as int);
            }
        } else if local_offset == 0 {
            // the deletion trims the start of the piece
            let new_piece = self.arena.get(node_idx).piece.trim_start(delete_length);
            let old_lines = self.arena.get(node_idx).piece.line_feed_count;
            proof {
                self.lemma_trimmed_facts(node_idx, new_piece, 0, delete_length as int, true);
            }
            let new_lines = new_piece.line_feed_count;
            self.arena.get_mut(node_idx).piece = new_piece;
            proof {
                crate::edit::lemma_piece_set(before, *self, node_idx, new_piece);
                if keeps_aligned {
                    before.lemma_inner_boundary(kk, m);
                    assert(crate::aligned::piece_aligned(new_piece, before.original_bytes(), before.add_bytes()));
                    PieceTree::lemma_aligned_set(before, *self, node_idx, new_piece);
                }
            }
            let ghost trimmed = *self;
            proof {
                before.lemma_root_occupied(None, None);
                if let Some(r) = trimmed.root {
                    assert(trimmed.node(r).color == before.node(r).color);
                }
            }
            self.update_metadata(node_idx, Ghost(None));
            let ghost counted = *self;
            self.total_length = self.total_length - delete_length;
            self.total_lines = self.total_lines - (old_lines - new_lines);
            proof {
                PieceTree::lemma_shaped_same(counted, *self, None, None);
                lemma_payload_texts(trimmed, counted);
                if keeps_aligned {
                    PieceTree::lemma_aligned_payload(trimmed, counted);
                    PieceTree::lemma_aligned_same(counted, *self);
                }
                assert(self.texts() == counted.texts());
                before.lemma_cut_doc(kk, l, m);
                assert(before.texts()[kk as int].take(0) + before.texts()[kk as int].skip(m) =~= before.texts()[kk as int].skip(m));
                lemma_doc_joined(*self);
                assert(self.texts().take(kk as int) =~= before.texts().take(kk as int));
                PieceTree::lemma_slot_start_kept(before, *self, kk as int, before.bytes_before(kk as int) as int);
                assert forall|j: usize| #[trigger] self.shape@.contains(j) implies self.node(j).color == before.node(j).color
                    && self.node(j).parent == before.node(j).parent by {
                    assert(before.occupied(j));
                    assert(trimmed.occupied(j));
                }
                crate::detach::lemma_rb_kept(before, *self);
            }
        } else {
            // the deletion trims the end of the piece
            let new_piece = self.arena.get(node_idx).piece.trim_end(local_offset);
            let old_lines = self.arena.get(node_idx).piece.line_feed_count;
            proof {
                self.lemma_trimmed_facts(node_idx, new_piece, local_offset as int, piece_length as int, false);
            }
            let new_lines = new_piece.line_feed_count;
            self.arena.get_mut(node_idx).piece = new_piece;
            proof {
                crate::edit::lemma_piece_set(before, *self, node_idx, new_piece);
                if keeps_aligned {
                    before.lemma_inner_boundary(kk, l);
                    assert(crate::aligned::piece_aligned(new_piece, before.original_bytes(), before.add_bytes()));
                    PieceTree::lemma_aligned_set(before, *self, node_idx, new_piece);
                }
            }
            let ghost trimmed = *self;
            proof {
                before.lemma_root_occupied(None, None);
                if let Some(r) = trimmed.root {
                    assert(trimmed.node(r).color == before.node(r).color);
                }
            }
            self.update_metadata(node_idx, Ghost(None));
            let ghost counted = *self;
            self.total_length = self.total_length - delete_length;
            self.total_lines = self.total_lines - (old_lines - new_lines);
            proof {
                PieceTree::lemma_shaped_same(counted, *self, None, None);
                lemma_payload_texts(trimmed, counted);
                if keeps_aligned {
                    PieceTree::lemma_aligned_payload(trimmed, counted);
                    PieceTree::lemma_aligned_same(counted, *self);
                }
                assert(self.texts() == counted.texts());
                before.lemma_cut_doc(kk, l, m);
                let x = before.texts()[kk as int];
                assert(x.take(l) + x.skip(m) =~= x.take(l));
                lemma_doc_joined(*self);
                self.lemma_end_cut_start(before, kk, l);
                assert forall|j: usize| #[trigger] self.shape@.contains(j) implies self.node(j).color == before.node(j).color
                    && self.node(j).parent == before.node(j).parent by {
                    assert(before.occupied(j));
                    assert(trimmed.occupied(j));
                }
                crate::detach::lemma_rb_kept(before, *self);
            }
        }
    }

    /// Deletes `delete_length` bytes from `local_offset` on inside the piece of slot
    /// `node_idx`: the node keeps the part before them, and the part after them gets a node
    /// of its own, in a slot opened right after it.
    #[verifier::rlimit(60)]
    fn split_piece(&mut self, node_idx: usize, local_offset: usize, delete_length: usize)
        requires
            old(self).wf(),
            old(self).occupied(node_idx),
            old(self).nodes().len() < usize::MAX,
            0 < local_offset,
            local_offset + delete_length < old(self).node(node_idx).piece.length,
        ensures
            final(self).wf(),
            final(self).original_bytes() == old(self).original_bytes(),
            final(self).add_buffer == old(self).add_buffer,
            final(self).original_buffer == old(self).original_buffer,
            final(self).add_bytes() == old(self).add_bytes(),
            final(self).texts() == old(self).texts().update(
                node_idx as int,
                old(self).texts()[node_idx as int].take(local_offset as int),
            ).insert(node_idx + 1, old(self).texts()[node_idx as int].skip(local_offset + delete_length)),
            final(self).nodes().len() == old(self).nodes().len() + 1,
            old(self).aligned() && is_char_boundary(old(self).doc(), old(self).bytes_before(node_idx as int) + local_offset)
                && is_char_boundary(old(self).doc(), old(self).bytes_before(node_idx as int) + local_offset + delete_length)
                ==> final(self).aligned(),
            final(self).root_black(),
            old(self).no_red_pairs() && old(self).black_balanced() ==> final(self).no_red_pairs() && final(self).black_balanced(),
    {
        let ghost before = *self;
        let ghost l = local_offset as int;
        let ghost m = l + delete_length;
        let ghost keeps_aligned = old(self).aligned() && is_char_boundary(old(self).doc(), old(self).bytes_before(node_idx as int) + local_offset)
            && is_char_boundary(old(self).doc(), old(self).bytes_before(node_idx as int) + local_offset + delete_length);
        proof {
            self.lemma_shaped_basics(None, None);
            self.lemma_slot_piece(node_idx);
        }
        let original_piece = self.arena.get(node_idx).piece.clone();
        let (left_piece, right_piece) = original_piece.split_at(local_offset);
        let right_piece = right_piece.trim_start(delete_length);
        proof {
            self.lemma_split_facts(node_idx, original_piece, left_piece, right_piece, l, m);
            if keeps_aligned {
                before.lemma_inner_boundary(node_idx, l);
                before.lemma_inner_boundary(node_idx, m);
                assert(crate::aligned::piece_aligned(left_piece, before.original_bytes(), before.add_bytes()));
                assert(crate::aligned::piece_aligned(right_piece, before.original_bytes(), before.add_bytes()));
            }
        }
        let original_lines = original_piece.line_feed_count;
        let left_lines = left_piece.line_feed_count;
        let right_lines = right_piece.line_feed_count;
        self.arena.get_mut(node_idx).piece = left_piece;
        proof {
            crate::edit::lemma_piece_set(before, *self, node_idx, left_piece);
            if keeps_aligned {
                PieceTree::lemma_aligned_set(before, *self, node_idx, left_piece);
            }
        }
        let ghost trimmed = *self;
        self.update_metadata(node_idx, Ghost(None));
        proof {
            lemma_payload_texts(trimmed, *self);
            if keeps_aligned {
                PieceTree::lemma_aligned_payload(trimmed, *self);
            }
            assert forall|j: usize| #[trigger] self.shape@.contains(j) implies self.node(j).color == before.node(j).color
                && self.node(j).parent == before.node(j).parent by {
                assert(before.occupied(j));
                assert(trimmed.occupied(j));
            }
            crate::detach::lemma_rb_kept(before, *self);
        }
        self.hang_piece_at(node_idx + 1, right_piece);
        let ghost hung = *self;
        self.total_length = self.total_length - delete_length;
        self.total_lines = self.total_lines - (original_lines - left_lines - right_lines);
        proof {
            PieceTree::lemma_shaped_same(hung, *self, None, None);
            crate::detach::lemma_rb_kept(hung, *self);
            assert(self.texts() == hung.texts());
            if keeps_aligned {
                PieceTree::lemma_aligned_same(hung, *self);
            }
        }
    }

    /// Deletes `length` bytes at byte `start` of the document, piece by piece: a piece the
    /// deletion covers whole is removed, one it cuts at its start or end is trimmed, and one
    /// it cuts in the middle is split, its remainder getting a node of its own.
    #[verifier::rlimit(60)]
    pub fn delete(&mut self, start: usize, length: usize)
        requires
            old(self).wf(),
            start + length <= usize::MAX,
            old(self).nodes().len() < usize::MAX,
        ensures
            final(self).wf(),
            final(self).original_bytes() == old(self).original_bytes(),
            final(self).add_buffer == old(self).add_buffer,
            final(self).original_buffer == old(self).original_buffer,
            final(self).add_bytes() == old(self).add_bytes(),
            final(self).doc() == old(self).deleted_doc(start as int, length as int),
            final(self).doc().len() == old(self).doc().len() - (if start >= old(self).doc().len() {
                0
            } else if start + length < old(self).doc().len() {
                length as int
            } else {
                old(self).doc().len() - start
            }),
            old(self).root_black() ==> final(self).root_black(),
            old(self).no_red_pairs() && old(self).black_balanced() ==> final(self).no_red_pairs() && final(self).black_balanced(),
            final(self).nodes().len() <= old(self).nodes().len() + 1,
            old(self).aligned() && (start < old(self).doc().len() ==> is_char_boundary(old(self).doc(), start as int)
                && is_char_boundary(
                old(self).doc(),
                if start + length < old(self).doc().len() { start + length } else { old(self).doc().len() as int },
            )) ==> final(self).aligned(),
    {
        if length == 0 {
            return;
        }
        let ghost d0 = self.doc();
        let ghost keeps = old(self).aligned() && (start < d0.len() ==> is_char_boundary(d0, start as int)
            && is_char_boundary(d0, if start + length < d0.len() { start + length } else { d0.len() as int }));
        let ghost s = start as int;
        let mut end = start + length;
        // bytes after the deleted ones move down to `current_offset` as those go
        let current_offset = start;
        let ghost mut split = false;
        while current_offset < end
            invariant
                self.wf(),
                self.original_bytes() == old(self).original_bytes(),
                self.add_bytes() == old(self).add_bytes(),
                self.add_buffer == old(self).add_buffer,
                self.original_buffer == old(self).original_buffer,
                !split ==> self.nodes().len() < usize::MAX,
                self.nodes().len() <= old(self).nodes().len() + (if split { 1int } else { 0int }),
                old(self).root_black() ==> self.root_black(),
                old(self).no_red_pairs() && old(self).black_balanced() ==> self.no_red_pairs() && self.black_balanced(),
                d0 == old(self).doc(),
                s == start,
                current_offset == start,
                start <= end <= start + length,
                length > 0,
                end == start + length ==> !split && *self == *old(self),
                !split && end < start + length ==> {
                    &&& s + (start + length - end) <= d0.len()
                    &&& self.doc() == d0.take(s) + d0.skip(s + (start + length - end))
                    &&& !old(self).splits_piece(s, length as int)
                    &&& current_offset < end ==> self.at_slot_start(s)
                },
                split ==> end == current_offset && self.doc() == old(self).deleted_doc(s, length as int),
                keeps == (old(self).aligned() && (start < d0.len() ==> is_char_boundary(d0, start as int)
                    && is_char_boundary(d0, if start + length < d0.len() { start + length } else { d0.len() as int }))),
                keeps ==> self.aligned(),
                keeps && !split && end <= self.doc().len() ==> is_char_boundary(self.doc(), end as int),
            ensures
                self.wf(),
                self.original_bytes() == old(self).original_bytes(),
                self.add_bytes() == old(self).add_bytes(),
                self.add_buffer == old(self).add_buffer,
                self.original_buffer == old(self).original_buffer,
                self.doc() == old(self).deleted_doc(s, length as int),
                self.nodes().len() <= old(self).nodes().len() + 1,
                old(self).root_black() ==> self.root_black(),
                old(self).no_red_pairs() && old(self).black_balanced() ==> self.no_red_pairs() && self.black_balanced(),
                keeps ==> self.aligned(),
            decreases end - current_offset,
        {
            let ghost first = end == start + length;
            let ghost gone = (start + length - end) as int;
            let (node_idx, local_offset) = match self.find_node_at_offset(current_offset) {
                None => {
                    proof {
                        if !first {
                            assert(d0.skip(s + gone) =~= d0.skip(d0.len() as int));
                        }
                    }
                    break;
                },
                Some(n) => n,
            };
            proof {
                self.lemma_shaped_basics(None, None);
                self.lemma_total_span();
                self.lemma_doc_is_tree(None);
                if !first {
                    self.lemma_slot_start_local(s);
                }
                self.lemma_slot_piece(node_idx);
                assert(slot_len(self.nodes(), node_idx as int) == self.node(node_idx).piece.length);
                self.lemma_doc_range(node_idx, 0, self.node(node_idx).piece.length as int);
            }
            let piece_length = self.arena.get(node_idx).piece.length;
            let piece_end = current_offset - local_offset + piece_length;
            let delete_end = if end < piece_end { end } else { piece_end };
            let delete_length = delete_end - current_offset;

            let ghost doc_before = self.doc();
            proof {
                if keeps {
                    self.lemma_doc_valid();
                }
            }
            if local_offset == 0 || delete_end == piece_end {
                // the deletion covers the piece, or cuts it at its start or its end
                self.delete_in_piece(node_idx, local_offset, delete_length);
                proof {
                    if keeps {
                        self.lemma_doc_valid();
                        if end <= doc_before.len() {
                            crate::aligned::lemma_cut_keeps_boundary(doc_before, s, delete_length as int, end as int);
                        }
                    }
                    if first {
                        assert(d0.take(s) =~= d0.take(s));
                    } else {
                        lemma_double_cut(d0, s, gone, delete_length as int);
                    }
                }
            } else {
                // the deletion lies inside the piece
                let ghost old_state = *self;
                self.split_piece(node_idx, local_offset, delete_length);
                proof {
                    lemma_doc_joined(*self);
                    if first {
                        old(self).lemma_texts_at(s);
                        lemma_doc_joined(*old(self));
                        crate::doc::lemma_joined_cut_out(
                            old(self).texts(),
                            node_idx as int,
                            local_offset as int,
                            local_offset + delete_length,
                            s,
                        );
                    }
                    split = true;
                }
            }
            end = end - delete_length;
        }
        proof {
            crate::laws::law_delete_length(*old(self), start as int, length as int);
        }
    }
}

} // verus!
