use vstd::prelude::*;
use vstd::string::StringExecFns;
use vstd::string::StringSliceAdditionalSpecFns;
use vstd::utf8::{encode_utf8, is_char_boundary, valid_utf8};
use crate::arena::Node;
use crate::doc::{lemma_span_split, slot_len, slot_lines, slot_text, span_len, span_lines, span_text};
use crate::lines::{newline_count, newline_offsets, LINE_FEED};
use crate::navigate::{covers, lemma_covers_split, lemma_covers_sums};
use crate::piece::{piece_text, piece_wf, BufferKind};
use crate::shape::{char_sum, line_sum, links, node_of, Shape};
use crate::tree::PieceTree;
use crate::utf8_text::append_byte_range;

verus! {

/// The node of subtree `g` (whose line feeds are counted from `base` on) that holds line feed
/// number `line` (counting from 1), with that line feed's number inside the node's piece.
pub open spec fn line_search(nodes: Seq<Option<Node>>, g: Shape, line: int, base: int) -> Option<(usize, int)>
    decreases g,
{
    match g {
        Shape::Leaf => None,
        Shape::Branch { id, left, right } => {
            let start = base + line_sum(nodes, *left);
            let end = start + node_of(nodes, id).piece.line_feed_count;
            if line <= start {
                line_search(nodes, *left, line, base)
            } else if line > end {
                line_search(nodes, *right, line, end)
            } else {
                Some((id, line - start))
            }
        },
    }
}

/// The first line feed of `s` at or after `i`, or the end of `s`.
pub open spec fn line_end(s: Seq<u8>, i: int) -> int
    decreases s.len() - i,
{
    if i >= s.len() {
        s.len() as int
    } else if s[i] == LINE_FEED {
        i
    } else {
        line_end(s, i + 1)
    }
}

/// Skipping bytes that are not line feeds does not move the end of the line.
pub proof fn lemma_line_end_skip(s: Seq<u8>, i: int, j: int)
    requires
        0 <= i <= j <= s.len(),
        forall|q: int| i <= q < j ==> s[q] != LINE_FEED,
    ensures
        line_end(s, i) == line_end(s, j),
    decreases j - i,
{
    if i < j {
        lemma_line_end_skip(s, i + 1, j);
    }
}

/// Where the line search stops, it names a node of the tree and a line feed of its piece;
/// it stops whenever the line feed lies in the subtree.
pub proof fn lemma_line_search_found(nodes: Seq<Option<Node>>, g: Shape, line: int, base: int)
    ensures
        line_search(nodes, g, line, base) matches Some((k, ll)) ==> g.contains(k) && 1 <= ll
            <= node_of(nodes, k).piece.line_feed_count,
        base < line <= base + line_sum(nodes, g) ==> line_search(nodes, g, line, base) is Some,
    decreases g,
{
    if let Shape::Branch { id, left, right } = g {
        let start = base + line_sum(nodes, *left);
        let end = start + node_of(nodes, id).piece.line_feed_count;
        lemma_line_search_found(nodes, *left, line, base);
        lemma_line_search_found(nodes, *right, line, end);
    }
}

/// Where line `line` of `d` starts: at 0 for the first line, right after line feed number
/// `line` for a later one; nothing past the last line.
pub open spec fn line_start_of(d: Seq<u8>, line: int) -> Option<int> {
    if line == 0 {
        Some(0)
    } else if 1 <= line <= newline_count(d) {
        Some(newline_offsets(d)[line - 1] + 1)
    } else {
        None
    }
}

/// Line 0 of `d` starts at 0, and line `line` from 1 on starts right after a line feed,
/// with exactly `line` line feeds before it; there are as many lines as one more than the
/// line feeds.
pub proof fn law_line_start(d: Seq<u8>, line: int)
    requires
        d.len() <= usize::MAX,
    ensures
        line_start_of(d, line) is Some <==> 0 <= line <= newline_count(d),
        line_start_of(d, line) matches Some(p) ==> {
            &&& 0 <= p <= d.len()
            &&& newline_count(d.take(p)) == line
            &&& line == 0 ==> p == 0
            &&& line >= 1 ==> d[p - 1] == LINE_FEED
        },
{
    crate::lines::lemma_newline_offsets_shape(d);
    if line == 0 {
        assert(d.take(0) =~= Seq::<u8>::empty());
        crate::lines::lemma_newline_count_bound(d.take(0));
    } else if 1 <= line <= newline_count(d) {
        let ls = newline_offsets(d);
        let p = ls[line - 1] + 1;
        crate::lines::lemma_newline_offsets_take(d, p);
        crate::lines::lemma_keep_below_prefix(ls, p);
        let k = crate::lines::keep_below(ls, p).len() as int;
        if k < line {
            assert(ls[line - 1] >= p);
        }
        if k > line {
            assert(ls[line] < p);
            assert(ls[line - 1] < ls[line]);
        }
        assert(k == line);
    }
}

/// A line that starts at `i` runs up to the first line feed at or after `i`, or to the end
/// of `s` when there is none: no byte before its end is a line feed.
pub proof fn law_line_end(s: Seq<u8>, i: int)
    requires
        0 <= i <= s.len(),
    ensures
        i <= line_end(s, i) <= s.len(),
        forall|q: int| i <= q < line_end(s, i) ==> s[q] != LINE_FEED,
        line_end(s, i) < s.len() ==> s[line_end(s, i)] == LINE_FEED,
    decreases s.len() - i,
{
    if i < s.len() && s[i] != LINE_FEED {
        law_line_end(s, i + 1);
    }
}

/// A line feed byte of valid UTF-8 sits on a character boundary, and so does the byte after it.
pub proof fn lemma_line_feed_boundaries(buf: Seq<u8>, q: int)
    requires
        valid_utf8(buf),
        0 <= q < buf.len(),
        buf[q] == LINE_FEED,
    ensures
        is_char_boundary(buf, q),
        is_char_boundary(buf, q + 1),
{
    vstd::utf8::is_char_boundary_iff_not_is_continuation_byte(buf, q);
    vstd::utf8::valid_utf8_split(buf, q);
    let t = buf.subrange(q, buf.len() as int);
    assert(t[0] == LINE_FEED);
    assert(vstd::utf8::length_of_first_scalar(t) == 1);
    assert(vstd::utf8::pop_first_scalar(t) =~= buf.subrange(q + 1, buf.len() as int));
    if q + 1 < buf.len() {
        let u = buf.subrange(q + 1, buf.len() as int);
        assert(valid_utf8(u));
        vstd::utf8::is_char_boundary_iff_not_is_continuation_byte(u, 0);
        assert(u[0] == buf[q + 1]);
        vstd::utf8::is_char_boundary_iff_not_is_continuation_byte(buf, q + 1);
    } else {
        vstd::utf8::is_char_boundary_start_end_of_seq(buf);
    }
}

/// The first line feed in `bytes[from..to]`.
fn find_line_feed(bytes: &[u8], from: usize, to: usize) -> (r: Option<usize>)
    requires
        from <= to <= bytes@.len(),
    ensures
        r matches Some(p) ==> from <= p < to && bytes@[p as int] == LINE_FEED && forall|q: int| from <= q < p
            ==> bytes@[q] != LINE_FEED,
        r is None ==> forall|q: int| from <= q < to ==> bytes@[q] != LINE_FEED,
{
    let mut i = from;
    while i < to
        invariant
            from <= i <= to <= bytes@.len(),
            forall|q: int| from <= q < i ==> bytes@[q] != LINE_FEED,
        decreases to - i,
    {
        if bytes[i] == LINE_FEED {
            return Some(i);
        }
        i += 1;
    }
    None
}

} // verus!

verus! {

impl PieceTree {
    /// The slot holding line feed number `line` (counting from 1), and that line feed's number
    /// inside the slot's piece.
    pub open spec fn line_target(&self, line: int) -> Option<(usize, int)> {
        line_search(self.nodes(), self.shape@, line, 0)
    }

    /// Where line `line` of the document starts.
    pub open spec fn line_start(&self, line: int) -> Option<int> {
        line_start_of(self.doc(), line)
    }

    /// A line starts inside the document.
    pub proof fn lemma_line_start_in_doc(&self, line: int)
        requires
            self.wf(),
        ensures
            self.line_start(line) matches Some(p) ==> 0 <= p <= self.doc().len(),
    {
        let d = self.doc();
        self.lemma_doc_is_tree(None);
        self.lemma_shaped_basics(None, None);
        crate::lines::lemma_newline_offsets_shape(d);
    }

    /// Line feed `ll` (counting from 1) of the piece of slot `k` is line feed number
    /// `lines before k + ll` of the document.
    pub proof fn lemma_feed_position(&self, k: usize, ll: int)
        requires
            self.shaped(None, None),
            self.occupied(k),
            1 <= ll <= self.node(k).piece.line_feed_count,
        ensures
            span_lines(self.nodes(), 0, k as int) + ll <= newline_count(self.doc()),
            newline_offsets(self.doc())[span_lines(self.nodes(), 0, k as int) + ll - 1] == self.bytes_before(k as int)
                + newline_offsets(self.texts()[k as int])[ll - 1],
    {
        self.lemma_shaped_basics(None, None);
        self.lemma_slot_piece(k);
        self.lemma_doc_is_tree(None);
        let nodes = self.nodes();
        let ob = self.original_bytes();
        let ab = self.add_bytes();
        let ts = self.texts();
        let x = ts[k as int];
        crate::edit::lemma_doc_joined(*self);
        crate::doc::lemma_texts_prefix(nodes, ob, ab, k as int);
        crate::doc::lemma_span_text_shape(nodes, ob, ab, 0, k as int);
        crate::doc::lemma_joined_cut(ts, k as int, 0, self.bytes_before(k as int) as int);
        crate::laws::lemma_joined_prefix_len(ts, k as int);
        let a = crate::doc::joined(ts.take(k as int));
        let r = crate::doc::joined(ts.skip(k as int + 1));
        let d = self.doc();
        assert(x.take(0) =~= Seq::<u8>::empty());
        assert(x.skip(0) =~= x);
        assert(d =~= d.take(self.bytes_before(k as int) as int) + d.skip(self.bytes_before(k as int) as int));
        assert(d =~= a + (x + r));
        assert(a + x.take(0) =~= a);
        crate::lines::lemma_newline_offsets_shape(x);
        crate::lines::lemma_newline_offsets_shape(d);
        crate::buffer::lemma_newline_offsets_concat(a, x + r);
        crate::buffer::lemma_newline_offsets_concat(x, r);
        let i = span_lines(nodes, 0, k as int) + ll - 1;
        assert(newline_offsets(a).len() == span_lines(nodes, 0, k as int));
        assert(newline_offsets(x).len() == self.node(k).piece.line_feed_count);
    }

    /// The slot where line `line` starts and the line's number inside that slot's piece,
    /// found by descending on the recorded left line totals. Line 0 starts in the first
    /// slot of the tree, at local line 0; a later line starts after line feed number `line`
    /// (counting from 1), and the local line is that line feed's number inside its piece.
    pub(crate) fn find_node_at_line(&self, line: usize) -> (r: Option<(usize, usize)>)
        requires
            self.shaped(None, None),
        ensures
            r matches Some((k, ll)) ==> {
                &&& self.occupied(k)
                &&& self.shape@.contains(k)
                &&& ll <= self.node(k).piece.line_feed_count
            },
            line >= 1 ==> (r matches Some((k, ll)) ==> self.line_target(line as int) == Some((k, ll as int))),
            line >= 1 ==> (r is None ==> self.line_target(line as int) is None),
            line >= 1 ==> (r matches Some((k, ll)) ==> 1 <= ll && span_lines(self.nodes(), 0, k as int) + ll == line),
            line == 0 ==> (r is Some <==> self.root is Some),
            line == 0 ==> (r matches Some((k, ll)) ==> ll == 0 && self.bytes_before(k as int) == 0 && span_lines(
                self.nodes(),
                0,
                k as int,
            ) == 0),
    {
        let ghost nodes = self.nodes();
        let ghost n = nodes.len() as int;
        proof {
            self.lemma_shaped_basics(None, None);
            self.lemma_total_span();
        }
        let mut current = match self.root {
            None => {
                proof {
                    assert(self.shape@ == Shape::Leaf);
                }
                return None;
            },
            Some(root) => root,
        };
        let mut current_line: usize = 0;
        let ghost mut g = self.shape@;
        let ghost mut gpar: Option<usize> = None;
        let ghost mut lo: int = 0;
        let ghost mut hi: int = n;
        loop
            invariant
                nodes == self.nodes(),
                self.shaped(None, None),
                n == nodes.len(),
                n <= usize::MAX,
                g.root() == Some(current),
                g.ordered(),
                links(nodes, g, gpar, None),
                covers(nodes, g, lo, hi),
                0 <= lo <= hi <= n,
                forall|j: usize| #[trigger] g.contains(j) ==> self.shape@.contains(j),
                current_line == span_lines(nodes, 0, lo),
                line_search(nodes, self.shape@, line as int, 0) == line_search(nodes, g, line as int, current_line as int),
                span_lines(nodes, 0, hi) <= span_lines(nodes, 0, n),
                span_lines(nodes, 0, n) < usize::MAX,
                line == 0 ==> lo == 0,
                self.root is Some,
            decreases g.size(),
        {
            let ghost c = current;
            proof {
                lemma_covers_split(nodes, g, lo, hi);
                assert(g.contains(c));
                lemma_covers_sums(nodes, g.left_of(), Some(c), lo, c as int);
                lemma_covers_sums(nodes, g.right_of(), Some(c), c + 1, hi);
                lemma_span_split(nodes, Seq::empty(), Seq::empty(), 0, lo, c as int);
                lemma_span_split(nodes, Seq::empty(), Seq::empty(), 0, c as int, c + 1);
                lemma_span_split(nodes, Seq::empty(), Seq::empty(), 0, c + 1, hi);
                crate::doc::lemma_span_single(nodes, Seq::empty(), Seq::empty(), c as int);
            }
            let node = self.arena.get(current);
            let node_line_start = current_line + node.left_line_count;
            let node_line_end = node_line_start + node.piece.line_feed_count;
            let left = node.left;
            let right = node.right;

            if line <= node_line_start {
                match left {
                    None => {
                        if line == 0 {
                            proof {
                                assert(g.left_of() == Shape::Leaf);
                                assert(char_sum(nodes, Shape::Leaf) == 0);
                                assert(line_sum(nodes, Shape::Leaf) == 0);
                                self.lemma_shaped_basics(None, None);
                                assert(self.occupied(c));
                            }
                            return Some((current, 0));
                        }
                        proof {
                            assert(g.left_of() == Shape::Leaf);
                            assert(line_sum(nodes, Shape::Leaf) == 0);
                            if let Shape::Branch { left: gl, .. } = g {
                                assert(line_search(nodes, g, line as int, current_line as int) == line_search(
                                    nodes,
                                    *gl,
                                    line as int,
                                    current_line as int,
                                ));
                            }
                        }
                        return None;
                    },
                    Some(l) => {
                        proof {
                            if let Shape::Branch { left: gl, .. } = g {
                                assert(gl.contains(l));
                                assert forall|j: usize| #[trigger] gl.contains(j) implies self.shape@.contains(j) by {
                                    assert(g.contains(j));
                                }
                            }
                            crate::navigate::lemma_span_lines_mono(nodes, 0, c as int, hi);
                            gpar = Some(c);
                            hi = c as int;
                            g = g.left_of();
                        }
                        current = l;
                    },
                }
            } else if line > node_line_end {
                match right {
                    None => {
                        proof {
                            assert(g.right_of() == Shape::Leaf);
                            if let Shape::Branch { right: gr, .. } = g {
                                assert(line_search(nodes, g, line as int, current_line as int) == line_search(
                                    nodes,
                                    *gr,
                                    line as int,
                                    node_line_end as int,
                                ));
                            }
                        }
                        return None;
                    },
                    Some(r) => {
                        proof {
                            if let Shape::Branch { right: gr, .. } = g {
                                assert(gr.contains(r));
                                assert forall|j: usize| #[trigger] gr.contains(j) implies self.shape@.contains(j) by {
                                    assert(g.contains(j));
                                }
                            }
                            gpar = Some(c);
                            lo = c + 1;
                            g = g.right_of();
                        }
                        current_line = node_line_end;
                        current = r;
                    },
                }
            } else {
                proof {
                    self.lemma_shaped_basics(None, None);
                    assert(self.occupied(c));
                }
                return Some((current, line - node_line_start));
            }
        }
    }

    /// Where line `line` of the document starts, found from the node that holds the line feed
    /// that opens it.
    pub(crate) fn line_start_offset(&self, line: usize) -> (r: Option<usize>)
        requires
            self.wf(),
        ensures
            r matches Some(p) ==> self.line_start(line as int) == Some(p as int),
            r is None ==> self.line_start(line as int) is None,
            r is Some <==> line <= newline_count(self.doc()),
            r matches Some(p) ==> {
                &&& p <= self.doc().len()
                &&& newline_count(self.doc().take(p as int)) == line
                &&& line == 0 ==> p == 0
                &&& line >= 1 ==> self.doc()[p - 1] == LINE_FEED
            },
    {
        proof {
            self.lemma_doc_is_tree(None);
            self.lemma_shaped_basics(None, None);
            crate::lines::lemma_newline_offsets_shape(self.doc());
            law_line_start(self.doc(), line as int);
        }
        if line == 0 {
            return Some(0);
        }
        let (node_idx, local_line) = match self.find_node_at_line(line) {
            None => {
                proof {
                    lemma_line_search_found(self.nodes(), self.shape@, line as int, 0);
                }
                return None;
            },
            Some(n) => n,
        };
        let node = self.arena.get(node_idx);
        proof {
            self.lemma_feed_position(node_idx, local_line as int);
            self.lemma_slot_piece(node_idx);
            assert(node.piece.line_starts@ == newline_offsets(self.texts()[node_idx as int]));
        }
        let cumulative_chars = self.count_chars_before(node_idx);
        Some(cumulative_chars + node.piece.line_starts[local_line - 1] + 1)
    }

    /// The document position of column `col` of line `line`: where the line starts, plus
    /// `col` (which is not checked against the line's length).
    pub fn position_to_offset(&self, line: usize, col: usize) -> (r: Option<usize>)
        requires
            self.wf(),
            self.line_start(line as int) matches Some(p) ==> p + col <= usize::MAX,
        ensures
            r is Some <==> self.line_start(line as int) is Some,
            r matches Some(o) ==> o == self.line_start(line as int)->0 + col,
            r is Some <==> line <= newline_count(self.doc()),
            r matches Some(o) ==> {
                &&& col <= o
                &&& o - col <= self.doc().len()
                &&& newline_count(self.doc().take(o - col)) == line
                &&& line == 0 ==> o == col
                &&& line >= 1 ==> self.doc()[o - col - 1] == LINE_FEED
            },
    {
        match self.line_start_offset(line) {
            None => None,
            Some(p) => Some(p + col),
        }
    }

    /// The line (the number of line feeds before `offset`) and the column (the distance from
    /// the start of that line) of byte `offset`, or `None` when the offset lies at or past
    /// the end.
    pub fn offset_to_position(&self, offset: usize) -> (r: Option<(usize, usize)>)
        requires
            self.wf(),
        ensures
            r is Some <==> offset < self.doc().len(),
            r matches Some((line, col)) ==> {
                &&& line == newline_count(self.doc().take(offset as int))
                &&& self.line_start(line as int) matches Some(p) && col == offset - p
            },
            r matches Some((line, col)) ==> {
                &&& col <= offset
                &&& newline_count(self.doc().take(offset - col)) == line
                &&& line == 0 ==> col == offset
                &&& line >= 1 ==> self.doc()[offset - col - 1] == LINE_FEED
            },
    {
        let (node_idx, local_offset) = match self.find_node_at_offset(offset) {
            None => return None,
            Some(n) => n,
        };
        let node = self.arena.get(node_idx);
        proof {
            self.lemma_slot_piece(node_idx);
            self.lemma_shaped_basics(None, None);
            let x = self.texts()[node_idx as int];
            crate::lines::lemma_newline_offsets_shape(x);
        }
        let (piece_line, _piece_col) = node.piece.offset_to_line_col(local_offset);

        // the line feeds of all the pieces before this one
        let cumulative_lines = self.count_lines_before(node_idx);
        proof {
            self.lemma_position_facts(node_idx, local_offset as int, piece_line as int, offset as int);
            self.lemma_line_start_before(offset as int);
        }
        let line = cumulative_lines + piece_line;
        let start = self.line_start_offset(line).unwrap();
        Some((line, offset - start))
    }

    /// The line of byte `offset` starts at or before it.
    pub proof fn lemma_line_start_before(&self, offset: int)
        requires
            self.wf(),
            0 <= offset <= self.doc().len(),
        ensures
            self.line_start(newline_count(self.doc().take(offset)) as int) matches Some(p) && p <= offset,
    {
        let d = self.doc();
        self.lemma_doc_is_tree(None);
        self.lemma_shaped_basics(None, None);
        let c = newline_count(d.take(offset));
        crate::lines::lemma_newline_offsets_shape(d);
        crate::lines::lemma_newline_offsets_shape(d.take(offset));
        crate::lines::lemma_newline_offsets_take(d, offset);
        crate::lines::lemma_keep_below_prefix(newline_offsets(d), offset);
        if c > 0 {
            assert(newline_offsets(d.take(offset))[c - 1] == newline_offsets(d)[c - 1]);
        }
    }

    /// What `offset_to_position` computes from the piece holding the offset is the number of
    /// line feeds before the offset.
    pub proof fn lemma_position_facts(&self, k: usize, l: int, pl: int, offset: int)
        requires
            self.shaped(None, None),
            self.occupied(k),
            0 <= l < self.node(k).piece.length,
            self.bytes_before(k as int) + l == offset,
            0 <= pl <= self.node(k).piece.line_starts.len(),
            forall|i: int| 0 <= i < pl ==> self.node(k).piece.line_starts@[i] < l,
            forall|i: int| pl <= i < self.node(k).piece.line_starts.len() ==> self.node(k).piece.line_starts@[i] >= l,
        ensures
            span_lines(self.nodes(), 0, k as int) + pl == newline_count(self.doc().take(offset)),
            span_lines(self.nodes(), 0, k as int) + pl < usize::MAX,
    {
        self.lemma_slot_piece(k);
        self.lemma_shaped_basics(None, None);
        let x = self.texts()[k as int];
        let ls = self.node(k).piece.line_starts@;
        assert(ls == newline_offsets(x));
        lemma_partition_count(x, ls, l, pl);
        self.lemma_doc_lines_upto(k, l, offset);
    }

    /// The line feeds of the document before byte `offset` (byte `l` of slot `k`) are those
    /// of the slots before `k` and those of slot `k` before `l`.
    pub proof fn lemma_doc_lines_upto(&self, k: usize, l: int, offset: int)
        requires
            self.shaped(None, None),
            self.occupied(k),
            0 <= l < self.node(k).piece.length,
            self.bytes_before(k as int) + l == offset,
        ensures
            span_lines(self.nodes(), 0, k as int) + newline_count(self.texts()[k as int].take(l))
                == newline_count(self.doc().take(offset)),
            span_lines(self.nodes(), 0, k as int) + newline_count(self.texts()[k as int].take(l)) < usize::MAX,
    {
        self.lemma_slot_piece(k);
        self.lemma_shaped_basics(None, None);
        let x = self.texts()[k as int];
        let nodes = self.nodes();
        let ob = self.original_bytes();
        let ab = self.add_bytes();
        let n = nodes.len() as int;
        lemma_span_split(nodes, ob, ab, 0, k as int, k + 1);
        lemma_span_split(nodes, ob, ab, 0, k + 1, n);
        crate::doc::lemma_span_single(nodes, ob, ab, k as int);
        crate::doc::lemma_span_text_shape(nodes, ob, ab, 0, k as int);
        crate::doc::lemma_span_text_shape(nodes, ob, ab, 0, n);
        let before = span_text(nodes, ob, ab, 0, k as int);
        let after = span_text(nodes, ob, ab, k + 1, n);
        assert(x.len() == self.node(k).piece.length);
        assert(self.doc() == before + x + after);
        assert(self.doc().take(offset) =~= before + x.take(l));
        crate::lines::lemma_newline_count_concat(before, x.take(l));
        crate::lines::lemma_newline_count_concat(x.take(l), x.skip(l));
        assert(x.take(l) + x.skip(l) =~= x);
        crate::lines::lemma_newline_count_concat(before, x);
        crate::lines::lemma_newline_count_concat(before + x, after);
        self.lemma_doc_is_tree(None);
    }
}

/// The partition point of the line feed list of `x` at `l` is the number of line feeds of
/// `x` before byte `l`.
pub proof fn lemma_partition_count(x: Seq<u8>, ls: Seq<usize>, l: int, pl: int)
    requires
        ls == newline_offsets(x),
        x.len() <= usize::MAX,
        0 <= l < x.len(),
        0 <= pl <= ls.len(),
        forall|i: int| 0 <= i < pl ==> ls[i] < l,
        forall|i: int| pl <= i < ls.len() ==> ls[i] >= l,
    ensures
        pl == newline_count(x.take(l)),
{
    crate::lines::lemma_newline_offsets_shape(x);
    crate::lines::lemma_newline_offsets_take(x, l);
    crate::lines::lemma_keep_below_prefix(ls, l);
    let kb = crate::lines::keep_below(ls, l);
    if pl < kb.len() {
        assert(ls[pl] >= l);
    }
    if pl > kb.len() {
        assert(ls[kb.len() as int] < l);
    }
    assert(pl == kb.len());
}

} // verus!

verus! {

impl PieceTree {
    /// The end of the line that holds byte `start`: the first line feed at or after it, or
    /// the end of the document.
    pub(crate) fn line_end_offset(&self, start: usize) -> (r: usize)
        requires
            self.wf(),
            start <= self.doc().len(),
        ensures
            r == line_end(self.doc(), start as int),
            start <= r <= self.doc().len(),
            forall|q: int| start <= q < r ==> self.doc()[q] != LINE_FEED,
            (r as int) < self.doc().len() ==> self.doc()[r as int] == LINE_FEED,
    {
        let ghost d = self.doc();
        proof {
            law_line_end(d, start as int);
        }
        let mut cur = start;
        proof {
            self.lemma_shaped_basics(None, None);
            self.lemma_doc_is_tree(None);
            self.lemma_total_span();
        }
        loop
            invariant
                self.wf(),
                d == self.doc(),
                d.len() <= usize::MAX,
                start <= cur <= d.len(),
                line_end(d, start as int) == line_end(d, cur as int),
                start <= line_end(d, start as int) <= d.len(),
                forall|q: int| start <= q < line_end(d, start as int) ==> d[q] != LINE_FEED,
                line_end(d, start as int) < d.len() ==> d[line_end(d, start as int)] == LINE_FEED,
            decreases d.len() - cur,
        {
            let (node_idx, local_offset) = match self.find_node_at_offset(cur) {
                None => {
                    return cur;
                },
                Some(n) => n,
            };
            let piece = &self.arena.get(node_idx).piece;
            let buffer = match piece.buffer_kind {
                BufferKind::Original => self.original_buffer.content.as_str(),
                BufferKind::Add => self.add_buffer.content.as_str(),
            };
            let bytes = buffer.as_bytes();
            proof {
                self.lemma_slot_piece(node_idx);
                self.lemma_shaped_basics(None, None);
                assert(slot_len(self.nodes(), node_idx as int) == piece.length);
                assert(bytes@ == self.buffer_of(node_idx));
                self.lemma_doc_range(node_idx, local_offset as int, piece.length as int);
            }
            let a = piece.start + local_offset;
            let b = piece.start + piece.length;
            let ghost seg = d.subrange(cur as int, cur + (b - a));
            proof {
                assert(seg == bytes@.subrange(a as int, b as int));
            }
            match find_line_feed(bytes, a, b) {
                Some(p) => {
                    proof {
                        assert(d[cur + (p - a)] == seg[p - a]);
                        assert forall|q: int| cur <= q < cur + (p - a) implies d[q] != LINE_FEED by {
                            assert(d[q] == seg[q - cur]);
                        }
                        lemma_line_end_skip(d, cur as int, cur + (p - a));
                    }
                    return cur + (p - a);
                },
                None => {
                    proof {
                        assert forall|q: int| cur <= q < cur + (b - a) implies d[q] != LINE_FEED by {
                            assert(d[q] == seg[q - cur]);
                        }
                        lemma_line_end_skip(d, cur as int, cur + (b - a));
                    }
                    cur = cur + (b - a);
                },
            }
        }
    }

    /// Line `line_number` of the document, without the line feed that ends it, or `None`
    /// past the last line.
    pub fn get_line(&self, line_number: usize) -> (r: Option<String>)
        requires
            self.wf(),
            self.aligned(),
        ensures
            r is Some <==> self.line_start(line_number as int) is Some,
            r matches Some(text) ==> encode_utf8(text@) == self.doc().subrange(
                self.line_start(line_number as int)->0,
                line_end(self.doc(), self.line_start(line_number as int)->0),
            ),
            r is Some <==> line_number <= newline_count(self.doc()),
            r matches Some(text) ==> {
                let x = encode_utf8(text@);
                let p = self.line_start(line_number as int)->0;
                &&& newline_count(self.doc().take(p)) == line_number
                &&& line_number == 0 ==> p == 0
                &&& line_number >= 1 ==> self.doc()[p - 1] == LINE_FEED
                &&& p + x.len() <= self.doc().len()
                &&& x == self.doc().subrange(p, p + x.len())
                &&& forall|q: int| 0 <= q < x.len() ==> x[q] != LINE_FEED
                &&& p + x.len() == self.doc().len() || self.doc()[p + x.len()] == LINE_FEED
            },
    {
        let start = match self.line_start_offset(line_number) {
            None => return None,
            Some(p) => p,
        };
        let ghost d = self.doc();
        proof {
            self.lemma_line_start_in_doc(line_number as int);
            self.lemma_doc_valid();
            self.lemma_shaped_basics(None, None);
            self.lemma_doc_is_tree(None);
            crate::lines::lemma_newline_offsets_shape(d);
        }
        let end = self.line_end_offset(start);
        proof {
            law_line_end(d, start as int);
            law_line_start(d, line_number as int);
            let x = d.subrange(start as int, end as int);
            assert forall|q: int| 0 <= q < x.len() implies x[q] != LINE_FEED by {
                assert(x[q] == d[start + q]);
            }
            lemma_line_end_facts(d, start as int);
            vstd::utf8::is_char_boundary_start_end_of_seq(d);
            if start > 0 && (start as int) < d.len() {
                lemma_line_feed_boundaries(d, start - 1);
            }
            if (end as int) < d.len() {
                lemma_line_feed_boundaries(d, end as int);
            }
        }
        Some(self.get_slice(start, end - start))
    }
}

/// The end of a line lies at or after its start and at or before the end, and holds a line
/// feed when it is not the end.
pub proof fn lemma_line_end_facts(s: Seq<u8>, i: int)
    requires
        0 <= i <= s.len(),
    ensures
        i <= line_end(s, i) <= s.len(),
        line_end(s, i) < s.len() ==> s[line_end(s, i)] == LINE_FEED,
    decreases s.len() - i,
{
    if i < s.len() && s[i] != LINE_FEED {
        lemma_line_end_facts(s, i + 1);
    }
}

} // verus!
