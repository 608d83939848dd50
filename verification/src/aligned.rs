use vstd::prelude::*;
use vstd::utf8::{is_char_boundary, valid_utf8};
use crate::arena::Node;
use crate::doc::buffer_for;
use crate::piece::{piece_wf, BufferKind, Piece};
use crate::rebalance::same_payload;
use crate::tree::PieceTree;

verus! {

/// The piece starts and ends at character boundaries of its buffer.
pub open spec fn piece_aligned(p: Piece, ob: Seq<u8>, ab: Seq<u8>) -> bool {
    let buf = buffer_for(p.buffer_kind, ob, ab);
    &&& is_char_boundary(buf, p.start as int)
    &&& is_char_boundary(buf, p.start + p.length)
}

/// A character boundary of valid bytes stays one when valid bytes are appended.
pub proof fn lemma_boundary_kept(a: Seq<u8>, t: Seq<u8>, i: int)
    requires
        valid_utf8(a),
        valid_utf8(t),
        0 <= i <= a.len(),
        is_char_boundary(a, i),
    ensures
        is_char_boundary(a + t, i),
{
    vstd::utf8::valid_utf8_concat(a, t);
    if i == a.len() {
        crate::read::lemma_valid_concat_boundary(a, t);
    } else {
        vstd::utf8::is_char_boundary_iff_not_is_continuation_byte(a, i);
        vstd::utf8::is_char_boundary_iff_not_is_continuation_byte(a + t, i);
        assert((a + t)[i] == a[i]);
    }
}

/// Cutting bytes out of valid bytes keeps a later character boundary, shifted down.
pub proof fn lemma_cut_keeps_boundary(d: Seq<u8>, c: int, n: int, e: int)
    requires
        valid_utf8(d),
        valid_utf8(d.take(c) + d.skip(c + n)),
        0 <= c,
        0 <= n,
        c + n <= e <= d.len(),
        is_char_boundary(d, e),
    ensures
        is_char_boundary(d.take(c) + d.skip(c + n), e - n),
{
    let d2 = d.take(c) + d.skip(c + n);
    if e == d.len() {
        vstd::utf8::is_char_boundary_start_end_of_seq(d2);
        assert(d2.len() == e - n);
    } else {
        vstd::utf8::is_char_boundary_iff_not_is_continuation_byte(d, e);
        vstd::utf8::is_char_boundary_iff_not_is_continuation_byte(d2, e - n);
        assert(d2[e - n] == d[e]);
    }
}

impl PieceTree {
    /// Being aligned depends only on the slots and the buffers.
    pub proof fn lemma_aligned_same(a: PieceTree, b: PieceTree)
        requires
            a.aligned(),
            b.arena == a.arena,
            b.original_buffer == a.original_buffer,
            b.add_buffer == a.add_buffer,
        ensures
            b.aligned(),
    {
        assert forall|i: usize| #[trigger] b.occupied(i) implies {
            let p = b.node(i).piece;
            let buf = buffer_for(p.buffer_kind, b.original_bytes(), b.add_bytes());
            &&& is_char_boundary(buf, p.start as int)
            &&& is_char_boundary(buf, p.start + p.length)
        } by {
            assert(a.occupied(i));
        }
    }

    /// Trees with the same payload are aligned alike.
    pub proof fn lemma_aligned_payload(a: PieceTree, b: PieceTree)
        requires
            same_payload(a, b),
            a.aligned(),
        ensures
            b.aligned(),
    {
        assert forall|i: usize| #[trigger] b.occupied(i) implies {
            let p = b.node(i).piece;
            let buf = buffer_for(p.buffer_kind, b.original_bytes(), b.add_bytes());
            &&& is_char_boundary(buf, p.start as int)
            &&& is_char_boundary(buf, p.start + p.length)
        } by {
            assert(a.nodes()[i as int] is Some);
            assert(a.occupied(i));
        }
    }

    /// The document of an aligned tree is valid UTF-8.
    pub proof fn lemma_doc_valid(&self)
        requires
            self.shaped(None, None),
            self.aligned(),
        ensures
            valid_utf8(self.doc()),
    {
        self.lemma_span_valid(0, self.nodes().len() as int);
    }

    /// Appending to the add buffer keeps a tree aligned, and the appended text sits between
    /// character boundaries.
    pub proof fn lemma_aligned_extended(a: PieceTree, b: PieceTree, t: Seq<u8>)
        requires
            a.aligned(),
            b.nodes() == a.nodes(),
            b.original_bytes() == a.original_bytes(),
            b.add_bytes() == a.add_bytes() + t,
            pieces_in_bounds(a),
            valid_utf8(t),
        ensures
            b.aligned(),
            is_char_boundary(b.add_bytes(), a.add_bytes().len() as int),
            is_char_boundary(b.add_bytes(), b.add_bytes().len() as int),
    {
        let ab = a.add_bytes();
        a.lemma_buffer_valid(0);
        b.lemma_buffer_valid(0);
        assert forall|i: usize| #[trigger] b.occupied(i) implies {
            let p = b.node(i).piece;
            let buf = buffer_for(p.buffer_kind, b.original_bytes(), b.add_bytes());
            &&& is_char_boundary(buf, p.start as int)
            &&& is_char_boundary(buf, p.start + p.length)
        } by {
            assert(a.occupied(i));
            let p = a.node(i).piece;
            if p.buffer_kind == BufferKind::Add {
                lemma_boundary_kept(ab, t, p.start as int);
                lemma_boundary_kept(ab, t, p.start + p.length);
            }
        }
        crate::read::lemma_valid_concat_boundary(ab, t);
        vstd::utf8::is_char_boundary_start_end_of_seq(b.add_bytes());
    }
}

/// Every piece of the tree lies inside its buffer.
pub open spec fn pieces_in_bounds(a: PieceTree) -> bool {
    forall|i: usize| #[trigger] a.occupied(i) ==> a.node(i).piece.start + a.node(i).piece.length <= buffer_for(
        a.node(i).piece.buffer_kind,
        a.original_bytes(),
        a.add_bytes(),
    ).len()
}

impl PieceTree {
    /// The pieces of a shaped tree lie inside their buffers.
    pub proof fn lemma_in_bounds(&self, stale: Option<usize>, extra: Option<usize>)
        requires
            self.shaped(stale, extra),
        ensures
            pieces_in_bounds(*self),
    {
        self.lemma_shaped_basics(stale, extra);
        assert forall|i: usize| #[trigger] self.occupied(i) implies self.node(i).piece.start + self.node(i).piece.length
            <= buffer_for(self.node(i).piece.buffer_kind, self.original_bytes(), self.add_bytes()).len() by {
            assert(self.nodes()[i as int] is Some);
        }
    }

    /// Changing the piece of one slot to an aligned one keeps the tree aligned.
    pub proof fn lemma_aligned_set(a: PieceTree, b: PieceTree, k: usize, p2: Piece)
        requires
            a.aligned(),
            a.occupied(k),
            b.nodes() == a.nodes().update(k as int, Some(Node { piece: p2, ..a.node(k) })),
            b.original_bytes() == a.original_bytes(),
            b.add_bytes() == a.add_bytes(),
            piece_aligned(p2, a.original_bytes(), a.add_bytes()),
        ensures
            b.aligned(),
    {
        assert forall|i: usize| #[trigger] b.occupied(i) implies {
            let p = b.node(i).piece;
            let buf = buffer_for(p.buffer_kind, b.original_bytes(), b.add_bytes());
            &&& is_char_boundary(buf, p.start as int)
            &&& is_char_boundary(buf, p.start + p.length)
        } by {
            if i != k {
                assert(a.occupied(i));
            }
        }
    }

    /// Emptying a slot keeps the tree aligned.
    pub proof fn lemma_aligned_emptied(a: PieceTree, b: PieceTree, k: usize)
        requires
            a.aligned(),
            (k as int) < a.nodes().len(),
            b.nodes() == a.nodes().update(k as int, None),
            b.original_bytes() == a.original_bytes(),
            b.add_bytes() == a.add_bytes(),
        ensures
            b.aligned(),
    {
        assert forall|i: usize| #[trigger] b.occupied(i) implies {
            let p = b.node(i).piece;
            let buf = buffer_for(p.buffer_kind, b.original_bytes(), b.add_bytes());
            &&& is_char_boundary(buf, p.start as int)
            &&& is_char_boundary(buf, p.start + p.length)
        } by {
            assert(a.occupied(i));
        }
    }
}

impl PieceTree {
    /// Splitting an aligned piece at a character boundary of the document gives two
    /// aligned pieces, also after text was appended to the add buffer.
    pub proof fn lemma_split_aligned(&self, old: PieceTree, t: Seq<u8>, k: usize, left: Piece, right: Piece, l: int, offset: int)
        requires
            old.shaped(None, None),
            old.aligned(),
            self.aligned(),
            self.nodes() == old.nodes(),
            self.original_bytes() == old.original_bytes(),
            self.add_bytes() == old.add_bytes() + t,
            valid_utf8(t),
            self.occupied(k),
            0 <= offset < old.doc().len(),
            is_char_boundary(old.doc(), offset),
            old.piece_at(offset) == (k as int, l),
            0 < l < self.node(k).piece.length,
            left.buffer_kind == self.node(k).piece.buffer_kind,
            left.start == self.node(k).piece.start,
            left.length == l,
            right.buffer_kind == self.node(k).piece.buffer_kind,
            right.start == self.node(k).piece.start + l,
            right.length == self.node(k).piece.length - l,
        ensures
            piece_aligned(left, self.original_bytes(), self.add_bytes()),
            piece_aligned(right, self.original_bytes(), self.add_bytes()),
    {
        old.lemma_doc_boundary(offset);
        old.lemma_in_bounds(None, None);
        assert(old.occupied(k));
        let p = self.node(k).piece;
        old.lemma_buffer_valid(k);
        if p.buffer_kind == BufferKind::Add {
            lemma_boundary_kept(old.add_bytes(), t, p.start + l);
        }
    }
}

} // verus!
