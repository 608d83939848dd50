use vstd::prelude::*;
use vstd::string::StringExecFns;
use vstd::string::StringSliceAdditionalSpecFns;
use vstd::utf8::{encode_utf8, is_char_boundary, valid_utf8};
use crate::arena::Node;
use crate::doc::{
    buffer_for, lemma_span_len_mono, lemma_span_single, lemma_span_split, lemma_span_text_shape, slot_len, slot_of,
    slot_text, span_len, span_text,
};
use crate::piece::{piece_text, piece_wf, BufferKind};
use crate::shape::{node_of, Shape};
use crate::shape_facts::{lemma_child, lemma_subtree, lemma_subtree_links};
use crate::tree::PieceTree;
use crate::utf8_text::{append_byte_range, lemma_boundary_in_suffix};

verus! {

broadcast use vstd::string::group_string_axioms;

/// `slot_of` finds, from a slot that starts at or before `off`, the slot whose bytes hold it.
pub proof fn lemma_slot_of_props(nodes: Seq<Option<Node>>, off: int, i: int)
    requires
        0 <= i <= nodes.len(),
        span_len(nodes, 0, i) <= off < span_len(nodes, 0, nodes.len() as int),
    ensures
        i <= slot_of(nodes, off, i) < nodes.len(),
        span_len(nodes, 0, slot_of(nodes, off, i)) <= off < span_len(nodes, 0, slot_of(nodes, off, i) + 1),
    decreases nodes.len() - i,
{
    if i == nodes.len() {
    } else if span_len(nodes, 0, i + 1) > off {
    } else {
        lemma_slot_of_props(nodes, off, i + 1);
    }
}

/// A position inside one part of a valid concatenation that is a character boundary there
/// is one in the buffer the part was taken from.
pub proof fn lemma_boundary_transfer(
    doc: Seq<u8>,
    before: Seq<u8>,
    here: Seq<u8>,
    after: Seq<u8>,
    buf: Seq<u8>,
    s: int,
    l: int,
)
    requires
        valid_utf8(doc),
        valid_utf8(buf),
        doc == before + here + after,
        0 <= s,
        s + here.len() <= buf.len(),
        here == buf.subrange(s, s + here.len()),
        0 < l < here.len(),
        is_char_boundary(doc, before.len() + l),
    ensures
        is_char_boundary(buf, s + l),
{
    assert(doc[before.len() + l] == here[l]);
    assert(here[l] == buf[s + l]);
    vstd::utf8::is_char_boundary_iff_not_is_continuation_byte(doc, before.len() + l);
    vstd::utf8::is_char_boundary_iff_not_is_continuation_byte(buf, s + l);
}

impl PieceTree {
    /// Every piece starts and ends at a character boundary of its buffer.
    pub open spec fn aligned(&self) -> bool {
        forall|i: usize| #[trigger] self.occupied(i) ==> {
            let p = self.node(i).piece;
            let buf = buffer_for(p.buffer_kind, self.original_bytes(), self.add_bytes());
            &&& is_char_boundary(buf, p.start as int)
            &&& is_char_boundary(buf, p.start + p.length)
        }
    }

    /// A byte inside the document lies in the piece `piece_at` names, at the offset it names.
    pub proof fn lemma_piece_at(&self, offset: int)
        requires
            self.shaped(None, None),
            0 <= offset < self.doc().len(),
        ensures
            self.occupied(self.piece_at(offset).0 as usize),
            0 <= self.piece_at(offset).0 < self.nodes().len(),
            0 <= self.piece_at(offset).1 < slot_len(self.nodes(), self.piece_at(offset).0),
            self.bytes_before(self.piece_at(offset).0) + self.piece_at(offset).1 == offset,
    {
        self.lemma_total_span();
        self.lemma_shaped_basics(None, None);
        let nodes = self.nodes();
        lemma_slot_of_props(nodes, offset, 0);
        let k = self.piece_at(offset).0;
        lemma_span_split(nodes, Seq::empty(), Seq::empty(), 0, k, k + 1);
        lemma_span_single(nodes, Seq::empty(), Seq::empty(), k);
        assert((k as usize) as int == k);
    }

    /// The bytes of the buffer of the piece in an occupied slot.
    pub open spec fn buffer_of(&self, k: usize) -> Seq<u8> {
        buffer_for(self.node(k).piece.buffer_kind, self.original_bytes(), self.add_bytes())
    }

    /// Each slot's text of an aligned tree is valid UTF-8, and so is every span of them.
    pub proof fn lemma_span_valid(&self, lo: int, hi: int)
        requires
            self.shaped(None, None),
            self.aligned(),
        ensures
            valid_utf8(span_text(self.nodes(), self.original_bytes(), self.add_bytes(), lo, hi)),
        decreases hi - lo,
    {
        if hi > lo {
            self.lemma_span_valid(lo, hi - 1);
            self.lemma_slot_valid(hi - 1);
            vstd::utf8::valid_utf8_concat(
                span_text(self.nodes(), self.original_bytes(), self.add_bytes(), lo, hi - 1),
                slot_text(self.nodes(), self.original_bytes(), self.add_bytes(), hi - 1),
            );
        } else {
            assert(valid_utf8(Seq::<u8>::empty())) by {
                reveal_with_fuel(valid_utf8, 1);
            }
        }
    }

    /// The text of a slot of an aligned tree is valid UTF-8.
    pub proof fn lemma_slot_valid(&self, j: int)
        requires
            self.shaped(None, None),
            self.aligned(),
        ensures
            valid_utf8(slot_text(self.nodes(), self.original_bytes(), self.add_bytes(), j)),
    {
        let nodes = self.nodes();
        if 0 <= j < nodes.len() && nodes[j] is Some {
            self.lemma_shaped_basics(None, None);
            let k = j as usize;
            assert(self.occupied(k));
            let p = self.node(k).piece;
            let buf = self.buffer_of(k);
            assert(piece_wf(p, buf));
            let ob = self.original_bytes();
            let ab = self.add_bytes();
            vstd::utf8::encode_utf8_valid_utf8(self.original_buffer.content@);
            vstd::utf8::encode_utf8_valid_utf8(self.add_buffer.content@);
            assert(valid_utf8(buf));
            lemma_boundary_in_suffix(buf, p.start as int, p.start + p.length);
            let tail = buf.subrange(p.start as int, buf.len() as int);
            vstd::utf8::valid_utf8_split(tail, p.length as int);
            assert(tail.subrange(0, p.length as int) =~= piece_text(p, buf));
        } else {
            assert(valid_utf8(Seq::<u8>::empty())) by {
                reveal_with_fuel(valid_utf8, 1);
            }
        }
    }

    /// A character boundary of the document inside a piece is a character boundary of that
    /// piece's buffer.
    pub proof fn lemma_doc_boundary(&self, offset: int)
        requires
            self.shaped(None, None),
            self.aligned(),
            0 <= offset < self.doc().len(),
            is_char_boundary(self.doc(), offset),
        ensures
            ({
                let (k, l) = self.piece_at(offset);
                let p = self.node(k as usize).piece;
                is_char_boundary(self.buffer_of(k as usize), p.start + l)
            }),
    {
        self.lemma_piece_at(offset);
        let (k, l) = self.piece_at(offset);
        let ku = k as usize;
        let nodes = self.nodes();
        let ob = self.original_bytes();
        let ab = self.add_bytes();
        let n = nodes.len() as int;
        let p = self.node(ku).piece;
        let buf = self.buffer_of(ku);
        assert(self.occupied(ku));
        if l == 0 {
        } else {
            self.lemma_span_valid(0, n);
            self.lemma_buffer_valid(ku);
            lemma_span_split(nodes, ob, ab, 0, k, k + 1);
            lemma_span_split(nodes, ob, ab, 0, k + 1, n);
            lemma_span_single(nodes, ob, ab, k);
            self.lemma_shaped_basics(None, None);
            lemma_span_text_shape(nodes, ob, ab, 0, k);
            self.lemma_slot_piece(ku);
            assert(slot_text(nodes, ob, ab, k).len() == p.length);
            lemma_boundary_transfer(
                self.doc(),
                span_text(nodes, ob, ab, 0, k),
                slot_text(nodes, ob, ab, k),
                span_text(nodes, ob, ab, k + 1, n),
                buf,
                p.start as int,
                l,
            );
        }
    }

    /// The buffer of a piece is valid UTF-8.
    pub proof fn lemma_buffer_valid(&self, k: usize)
        ensures
            valid_utf8(self.buffer_of(k)),
            valid_utf8(self.original_bytes()),
            valid_utf8(self.add_bytes()),
    {
        vstd::utf8::encode_utf8_valid_utf8(self.original_buffer.content@);
        vstd::utf8::encode_utf8_valid_utf8(self.add_buffer.content@);
    }

    /// The text of an occupied slot is its piece's range of its buffer.
    pub proof fn lemma_slot_piece(&self, k: usize)
        requires
            self.shaped(None, None),
            self.occupied(k),
        ensures
            slot_text(self.nodes(), self.original_bytes(), self.add_bytes(), k as int) == piece_text(
                self.node(k).piece,
                self.buffer_of(k),
            ),
            piece_wf(self.node(k).piece, self.buffer_of(k)),
    {
        self.lemma_shaped_basics(None, None);
        assert(self.nodes()[k as int] is Some);
    }

    /// Appends, in tree order, the texts of the pieces of the subtree rooted at `node`.
    fn collect_text(&self, node: Option<usize>, result: &mut String)
        requires
            self.shaped(None, None),
            self.aligned(),
            node matches Some(k) ==> self.shape@.contains(k),
        ensures
            encode_utf8(final(result)@) == encode_utf8(old(result)@) + match node {
                Some(k) => self.text_of(self.shape@.subtree(k)),
                None => Seq::<u8>::empty(),
            },
        decreases
            match node {
                Some(k) => self.shape@.subtree(k).size() + 1,
                None => 0,
            },
    {
        let idx = match node {
            None => {
                assert(encode_utf8(result@) =~= encode_utf8(result@) + Seq::<u8>::empty());
                return;
            },
            Some(i) => i,
        };
        proof {
            self.lemma_shaped_basics(None, None);
            lemma_subtree(self.shape@, idx);
            lemma_subtree_links(self.nodes(), self.shape@, None, None, idx);
            crate::balance::lemma_child_link(*self, idx, None, None);
        }
        let node = self.arena.get(idx);
        let left = node.left;
        let right = node.right;
        let piece = &node.piece;
        let ghost s = self.shape@.subtree(idx);
        proof {
            if let Some(l) = left {
                lemma_child(self.shape@, idx, l, None);
            }
            if let Some(r) = right {
                lemma_child(self.shape@, idx, r, None);
            }
            if let Shape::Branch { left: sl, right: sr, .. } = s {
                if left is None {
                    assert(*sl == Shape::Leaf);
                }
                if right is None {
                    assert(*sr == Shape::Leaf);
                }
            }
        }

        // visit the left subtree first
        self.collect_text(left, result);

        // then this node's piece, from its buffer
        let text = match piece.buffer_kind {
            BufferKind::Original => self.original_buffer.content.as_str(),
            BufferKind::Add => self.add_buffer.content.as_str(),
        };
        proof {
            assert(self.occupied(idx));
            assert(piece_wf(*piece, self.buffer_of(idx)));
            assert(text.spec_bytes() == self.buffer_of(idx));
        }
        let ghost mid = result@;
        append_byte_range(result, text, piece.start, piece.start + piece.length);

        // then the right subtree
        self.collect_text(right, result);
        proof {
            let ob = self.original_bytes();
            let ab = self.add_bytes();
            assert(slot_text(self.nodes(), ob, ab, idx as int) == piece_text(*piece, text.spec_bytes()));
            assert(self.text_of(s) == self.text_of(s.left_of()) + slot_text(self.nodes(), ob, ab, idx as int)
                + self.text_of(s.right_of()));
            assert(self.text_of(Shape::Leaf) == Seq::<u8>::empty());
            assert(encode_utf8(result@) =~= encode_utf8(old(result)@) + self.text_of(s));
        }
    }

    /// The whole document, read in tree order.
    pub fn get_text(&self) -> (r: String)
        requires
            self.wf(),
            self.aligned(),
        ensures
            encode_utf8(r@) == self.doc(),
    {
        let mut result = String::new();
        proof {
            self.lemma_shaped_basics(None, None);
            self.lemma_doc_is_tree(None);
            if let Shape::Branch { id, .. } = self.shape@ {
                assert(self.shape@.contains(id));
                assert(self.shape@.subtree(id) == self.shape@);
            }
            assert(encode_utf8(result@) =~= Seq::<u8>::empty());
        }
        self.collect_text(self.root, &mut result);
        proof {
            if self.root is None {
                assert(self.shape@ == Shape::Leaf);
                assert(self.text_of(Shape::Leaf) == Seq::<u8>::empty());
            }
            assert(encode_utf8(result@) =~= self.doc());
        }
        result
    }
}

} // verus!

verus! {

/// Where one valid part ends inside a concatenation of valid parts, there is a character
/// boundary.
pub proof fn lemma_valid_concat_boundary(a: Seq<u8>, b: Seq<u8>)
    requires
        valid_utf8(a),
        valid_utf8(b),
    ensures
        is_char_boundary(a + b, a.len() as int),
{
    vstd::utf8::decode_utf8_encode_utf8(a);
    vstd::utf8::decode_utf8_encode_utf8(b);
    crate::utf8_text::lemma_encode_concat(vstd::utf8::decode_utf8(a), vstd::utf8::decode_utf8(b));
    crate::utf8_text::lemma_boundary_at_concat(vstd::utf8::decode_utf8(a), vstd::utf8::decode_utf8(b));
}

impl PieceTree {
    /// Bytes `l..m` of the piece in slot `k` are the bytes of the document at the same
    /// distance from where that piece starts in it.
    pub proof fn lemma_doc_range(&self, k: usize, l: int, m: int)
        requires
            self.shaped(None, None),
            self.occupied(k),
            0 <= l <= m <= self.node(k).piece.length,
        ensures
            self.bytes_before(k as int) + m <= self.doc().len(),
            self.doc().subrange(self.bytes_before(k as int) + l, self.bytes_before(k as int) + m) == self.buffer_of(
                k,
            ).subrange(self.node(k).piece.start + l, self.node(k).piece.start + m),
    {
        self.lemma_shaped_basics(None, None);
        let nodes = self.nodes();
        let ob = self.original_bytes();
        let ab = self.add_bytes();
        let n = nodes.len() as int;
        let ki = k as int;
        lemma_span_split(nodes, ob, ab, 0, ki, ki + 1);
        lemma_span_split(nodes, ob, ab, 0, ki + 1, n);
        lemma_span_single(nodes, ob, ab, ki);
        lemma_span_text_shape(nodes, ob, ab, 0, ki);
        lemma_span_text_shape(nodes, ob, ab, 0, n);
        self.lemma_slot_piece(k);
        let before = span_text(nodes, ob, ab, 0, ki);
        let here = slot_text(nodes, ob, ab, ki);
        let p = self.node(k).piece;
        assert(here.len() == p.length);
        assert(self.doc() == before + here + span_text(nodes, ob, ab, ki + 1, n));
        assert(self.doc().subrange(before.len() + l, before.len() + m) =~= here.subrange(l, m));
        assert(here.subrange(l, m) =~= self.buffer_of(k).subrange(p.start + l, p.start + m));
    }

    /// A position inside (or at an end of) the piece in slot `k` that is a character
    /// boundary of the document is one of the piece's buffer.
    pub proof fn lemma_inner_boundary(&self, k: usize, l: int)
        requires
            self.shaped(None, None),
            self.aligned(),
            self.occupied(k),
            0 <= l <= self.node(k).piece.length,
            0 < l < self.node(k).piece.length ==> is_char_boundary(self.doc(), self.bytes_before(k as int) + l),
        ensures
            is_char_boundary(self.buffer_of(k), self.node(k).piece.start + l),
    {
        if 0 < l < self.node(k).piece.length {
            self.lemma_doc_range(k, l, l + 1);
            let o = self.bytes_before(k as int) + l;
            let nodes = self.nodes();
            self.lemma_shaped_basics(None, None);
            assert(slot_len(nodes, k as int) == self.node(k).piece.length);
            lemma_span_split(nodes, Seq::empty(), Seq::empty(), 0, k as int, k + 1);
            lemma_span_single(nodes, Seq::empty(), Seq::empty(), k as int);
            crate::doc::lemma_slot_of_unique(nodes, o, k as int, 0);
            self.lemma_doc_boundary(o);
        }
    }

    /// Every piece end is a character boundary of the document.
    pub proof fn lemma_piece_end_boundary(&self, k: usize)
        requires
            self.shaped(None, None),
            self.aligned(),
            self.occupied(k),
        ensures
            is_char_boundary(self.doc(), self.bytes_before(k as int) + self.node(k).piece.length),
    {
        self.lemma_shaped_basics(None, None);
        let nodes = self.nodes();
        let ob = self.original_bytes();
        let ab = self.add_bytes();
        let n = nodes.len() as int;
        let ki = k as int;
        lemma_span_split(nodes, ob, ab, 0, ki + 1, n);
        lemma_span_split(nodes, ob, ab, 0, ki, ki + 1);
        lemma_span_text_shape(nodes, ob, ab, 0, ki + 1);
        lemma_span_text_shape(nodes, ob, ab, 0, ki);
        self.lemma_span_valid(0, ki + 1);
        self.lemma_span_valid(ki + 1, n);
        lemma_valid_concat_boundary(span_text(nodes, ob, ab, 0, ki + 1), span_text(nodes, ob, ab, ki + 1, n));
        assert(slot_len(nodes, ki) == self.node(k).piece.length);
    }

    /// The bytes `start..start + length` of the document (cut short at its end), or nothing
    /// when `start` lies at or past its end.
    pub fn get_slice(&self, start: usize, length: usize) -> (r: String)
        requires
            self.wf(),
            self.aligned(),
            start < self.doc().len() ==> is_char_boundary(self.doc(), start as int),
            start < self.doc().len() ==> is_char_boundary(
                self.doc(),
                if start + length < self.doc().len() { start + length } else { self.doc().len() as int },
            ),
        ensures
            encode_utf8(r@) == (if start < self.doc().len() {
                self.doc().subrange(
                    start as int,
                    if start + length < self.doc().len() { start + length } else { self.doc().len() as int },
                )
            } else {
                Seq::<u8>::empty()
            }),
    {
        let ghost len = self.doc().len() as int;
        let ghost end = if start + length < len { start + length } else { len };
        let mut result = String::new();
        let mut remaining = length;
        let mut current_offset = start;
        proof {
            self.lemma_shaped_basics(None, None);
            self.lemma_total_span();
            self.lemma_doc_is_tree(None);
            assert(encode_utf8(result@) =~= Seq::<u8>::empty());
        }
        while remaining > 0
            invariant
                self.wf(),
                self.aligned(),
                len == self.doc().len(),
                len <= usize::MAX,
                end == (if start + length < len { start + length } else { len }),
                current_offset + remaining == start + length,
                start < len ==> start <= current_offset <= len,
                start < len ==> is_char_boundary(self.doc(), current_offset as int),
                start < len ==> is_char_boundary(self.doc(), end),
                start < len ==> encode_utf8(result@) == self.doc().subrange(start as int, current_offset as int),
                start >= len ==> current_offset == start && encode_utf8(result@) == Seq::<u8>::empty(),
            ensures
                start < len ==> current_offset == end && encode_utf8(result@) == self.doc().subrange(start as int, end),
                start >= len ==> encode_utf8(result@) == Seq::<u8>::empty(),
            decreases remaining,
        {
            let (node_idx, local_offset) = match self.find_node_at_offset(current_offset) {
                None => break,
                Some(n) => n,
            };
            let piece = &self.arena.get(node_idx).piece;
            let buffer = match piece.buffer_kind {
                BufferKind::Original => self.original_buffer.content.as_str(),
                BufferKind::Add => self.add_buffer.content.as_str(),
            };
            proof {
                self.lemma_slot_piece(node_idx);
                self.lemma_shaped_basics(None, None);
                assert(piece.start + piece.length <= self.buffer_of(node_idx).len());
                assert(self.buffer_of(node_idx).len() <= usize::MAX);
                assert(slot_len(self.nodes(), node_idx as int) == piece.length);
                assert(buffer.spec_bytes() == self.buffer_of(node_idx));
            }

            // take as many bytes as we need from this piece, or the rest of the piece
            let available = piece.length - local_offset;
            let take = if available < remaining { available } else { remaining };
            let piece_start = piece.start + local_offset;
            proof {
                let k = node_idx;
                let l = local_offset as int;
                self.lemma_doc_range(k, l, l + take);
                self.lemma_inner_boundary(k, l);
                if take == available {
                    self.lemma_piece_end_boundary(k);
                } else {
                    assert(current_offset + take == end);
                }
                self.lemma_inner_boundary(k, l + take);
            }
            let ghost before = result@;
            append_byte_range(&mut result, buffer, piece_start, piece_start + take);
            proof {
                assert(self.doc().subrange(start as int, current_offset as int) + self.doc().subrange(
                    current_offset as int,
                    current_offset + take,
                ) =~= self.doc().subrange(start as int, current_offset + take));
            }

            remaining -= take;
            current_offset += take;
        }
        proof {
            if start < len {
                assert(self.doc().subrange(start as int, end) =~= self.doc().subrange(start as int, end));
            }
        }
        result
    }
}

} // verus!
