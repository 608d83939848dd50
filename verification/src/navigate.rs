use vstd::prelude::*;
use crate::arena::Node;
use crate::doc::{
    lemma_slot_of_unique, lemma_span_split, lemma_span_text_shape, lemma_tree_is_span, slot_len, slot_of, slot_texts,
    span_len, span_lines,
};
use crate::shape::{char_sum, line_sum, links, node_of, Shape};
use crate::tree::PieceTree;

verus! {

/// The slots of `g` lie in `lo..hi`, and every occupied slot there is a node of `g`.
pub open spec fn covers(nodes: Seq<Option<Node>>, g: Shape, lo: int, hi: int) -> bool {
    &&& forall|j: usize| #[trigger] g.contains(j) ==> lo <= j < hi
    &&& forall|j: int| lo <= j < hi && 0 <= j < nodes.len() && #[trigger] nodes[j] is Some ==> g.contains(j as usize)
}

/// The children of a branch cover the slots below and above its own.
pub proof fn lemma_covers_split(nodes: Seq<Option<Node>>, g: Shape, lo: int, hi: int)
    requires
        g.ordered(),
        covers(nodes, g, lo, hi),
        g is Branch,
        nodes.len() <= usize::MAX,
    ensures
        lo <= g->id < hi,
        covers(nodes, g.left_of(), lo, g->id as int),
        covers(nodes, g.right_of(), g->id + 1, hi),
{
    if let Shape::Branch { id, left, right } = g {
        assert(g.contains(id));
        assert forall|j: int| lo <= j < id && 0 <= j < nodes.len() && #[trigger] nodes[j] is Some implies left.contains(
            j as usize,
        ) by {
            assert((j as usize) as int == j);
            assert(g.contains(j as usize));
            if right.contains(j as usize) {
                assert(j > id);
            }
        }
        assert forall|j: int| id + 1 <= j < hi && 0 <= j < nodes.len() && #[trigger] nodes[j] is Some implies right.contains(
            j as usize,
        ) by {
            assert((j as usize) as int == j);
            assert(g.contains(j as usize));
            if left.contains(j as usize) {
                assert(j < id);
            }
        }
        assert forall|j: usize| #[trigger] left.contains(j) implies lo <= j < id by {
            assert(g.contains(j));
        }
        assert forall|j: usize| #[trigger] right.contains(j) implies id + 1 <= j < hi by {
            assert(g.contains(j));
        }
    }
}

/// The byte and line feed totals of a covering subtree are those of its span.
pub proof fn lemma_covers_sums(nodes: Seq<Option<Node>>, g: Shape, par: Option<usize>, lo: int, hi: int)
    requires
        g.ordered(),
        links(nodes, g, par, None),
        covers(nodes, g, lo, hi),
        nodes.len() <= usize::MAX,
        lo <= hi,
    ensures
        char_sum(nodes, g) == span_len(nodes, lo, hi),
        line_sum(nodes, g) == span_lines(nodes, lo, hi),
{
    lemma_tree_is_span(nodes, Seq::empty(), Seq::empty(), g, par, None, lo, hi);
}

impl PieceTree {
    /// The texts of the slots, slot by slot (empty for a free slot).
    pub open spec fn texts(&self) -> Seq<Seq<u8>> {
        slot_texts(self.nodes(), self.original_bytes(), self.add_bytes())
    }

    /// The slot whose piece holds byte `offset` of the document, and the offset inside
    /// that piece.
    pub open spec fn piece_at(&self, offset: int) -> (int, int) {
        let k = slot_of(self.nodes(), offset, 0);
        (k, offset - span_len(self.nodes(), 0, k))
    }

    /// The number of bytes in the slots before slot `k`.
    pub open spec fn bytes_before(&self, k: int) -> nat {
        span_len(self.nodes(), 0, k)
    }

    /// The total length of a shaped tree is the length of its document, the sum over all
    /// slots.
    pub proof fn lemma_total_span(&self)
        requires
            self.shaped(None, None),
        ensures
            char_sum(self.nodes(), self.shape@) == span_len(self.nodes(), 0, self.nodes().len() as int),
            line_sum(self.nodes(), self.shape@) == span_lines(self.nodes(), 0, self.nodes().len() as int),
            self.doc().len() == span_len(self.nodes(), 0, self.nodes().len() as int),
            covers(self.nodes(), self.shape@, 0, self.nodes().len() as int),
    {
        self.lemma_shaped_basics(None, None);
        self.lemma_doc_is_tree(None);
        let nodes = self.nodes();
        assert forall|j: usize| #[trigger] self.shape@.contains(j) implies 0 <= j < nodes.len() by {
            assert(self.occupied(j));
        }
        assert forall|j: int| 0 <= j < nodes.len() && 0 <= j < nodes.len() && #[trigger] nodes[j] is Some
            implies self.shape@.contains(j as usize) by {
            assert(self.occupied(j as usize));
        }
        lemma_covers_sums(nodes, self.shape@, None, 0, nodes.len() as int);
    }

    /// The slot and local offset of the piece that holds byte `offset` of the document, or
    /// `None` when the offset lies at or past its end.
    pub(crate) fn find_node_at_offset(&self, offset: usize) -> (r: Option<(usize, usize)>)
        requires
            self.shaped(None, None),
        ensures
            r is Some <==> offset < self.doc().len(),
            r matches Some((k, l)) ==> {
                &&& (k as int, l as int) == self.piece_at(offset as int)
                &&& self.occupied(k)
                &&& self.shape@.contains(k)
                &&& (l as int) < slot_len(self.nodes(), k as int)
                &&& self.bytes_before(k as int) + l == offset
            },
    {
        let ghost nodes = self.nodes();
        let ghost n = nodes.len() as int;
        proof {
            self.lemma_shaped_basics(None, None);
            self.lemma_total_span();
        }
        let mut current = match self.root {
            None => {
                proof {
                    assert(self.shape@ == Shape::Leaf);
                    assert(char_sum(nodes, Shape::Leaf) == 0);
                }
                return None;
            },
            Some(root) => root,
        };
        let mut current_offset: usize = 0;
        let ghost mut g = self.shape@;
        let ghost mut gpar: Option<usize> = None;
        let ghost mut lo: int = 0;
        let ghost mut hi: int = n;
        loop
            invariant
                nodes == self.nodes(),
                self.shaped(None, None),
                n == nodes.len(),
                n <= usize::MAX,
                g.root() == Some(current),
                g.ordered(),
                links(nodes, g, gpar, None),
                covers(nodes, g, lo, hi),
                0 <= lo <= hi <= n,
                forall|j: usize| #[trigger] g.contains(j) ==> self.shape@.contains(j),
                current_offset == span_len(nodes, 0, lo),
                current_offset <= offset,
                offset < span_len(nodes, 0, n) ==> offset < span_len(nodes, 0, hi),
                span_len(nodes, 0, n) == self.doc().len(),
                span_len(nodes, 0, n) <= usize::MAX,
            decreases g.size(),
        {
            let ghost c = current;
            proof {
                lemma_covers_split(nodes, g, lo, hi);
                assert(g.contains(c));
                lemma_covers_sums(nodes, g.left_of(), Some(c), lo, c as int);
                lemma_covers_sums(nodes, g.right_of(), Some(c), c + 1, hi);
                lemma_span_split(nodes, Seq::empty(), Seq::empty(), 0, lo, c as int);
                lemma_span_split(nodes, Seq::empty(), Seq::empty(), 0, c as int, c + 1);
                lemma_span_split(nodes, Seq::empty(), Seq::empty(), 0, c + 1, hi);
                lemma_span_split(nodes, Seq::empty(), Seq::empty(), 0, hi, n);
                crate::doc::lemma_span_single(nodes, Seq::empty(), Seq::empty(), c as int);
            }
            let node = self.arena.get(current);
            let node_start = current_offset + node.left_char_count;
            let node_end = node_start + node.piece.length;
            let left = node.left;
            let right = node.right;

            if offset < node_start {
                match left {
                    None => {
                        proof {
                            assert(g.left_of() == Shape::Leaf);
                            assert(char_sum(nodes, Shape::Leaf) == 0);
                        }
                        return None;
                    },
                    Some(l) => {
                        proof {
                            if let Shape::Branch { left: gl, .. } = g {
                                assert(gl.contains(l));
                                assert forall|j: usize| #[trigger] gl.contains(j) implies self.shape@.contains(j) by {
                                    assert(g.contains(j));
                                }
                            }
                            gpar = Some(c);
                            hi = c as int;
                            g = g.left_of();
                        }
                        current = l;
                    },
                }
            } else if offset >= node_end {
                match right {
                    None => {
                        proof {
                            assert(g.right_of() == Shape::Leaf);
                            assert(char_sum(nodes, Shape::Leaf) == 0);
                        }
                        return None;
                    },
                    Some(r) => {
                        proof {
                            if let Shape::Branch { right: gr, .. } = g {
                                assert(gr.contains(r));
                                assert forall|j: usize| #[trigger] gr.contains(j) implies self.shape@.contains(j) by {
                                    assert(g.contains(j));
                                }
                            }
                            gpar = Some(c);
                            lo = c + 1;
                            g = g.right_of();
                        }
                        current_offset = node_end;
                        current = r;
                    },
                }
            } else {
                // the offset falls within this node's piece
                proof {
                    self.lemma_shaped_basics(None, None);
                    lemma_slot_of_unique(nodes, offset as int, c as int, 0);
                }
                return Some((current, offset - node_start));
            }
        }
    }
}

} // verus!

verus! {

/// The range of slots that the subtree at `k` covers, when `t` covers `lo..hi`.
pub open spec fn bounds(t: Shape, k: usize, lo: int, hi: int) -> (int, int)
    decreases t,
{
    match t {
        Shape::Leaf => (lo, hi),
        Shape::Branch { id, left, right } => if k == id {
            (lo, hi)
        } else if k < id {
            bounds(*left, k, lo, id as int)
        } else {
            bounds(*right, k, id + 1, hi)
        },
    }
}

/// The subtree at `k` covers the range `bounds` gives, which holds `k`.
pub proof fn lemma_bounds(nodes: Seq<Option<Node>>, t: Shape, k: usize, lo: int, hi: int)
    requires
        t.ordered(),
        covers(nodes, t, lo, hi),
        t.contains(k),
        nodes.len() <= usize::MAX,
    ensures
        covers(nodes, t.subtree(k), bounds(t, k, lo, hi).0, bounds(t, k, lo, hi).1),
        lo <= bounds(t, k, lo, hi).0 <= k < bounds(t, k, lo, hi).1 <= hi,
    decreases t,
{
    if let Shape::Branch { id, left, right } = t {
        lemma_covers_split(nodes, t, lo, hi);
        if k < id {
            if right.contains(k) {
                assert(false);
            }
            lemma_bounds(nodes, *left, k, lo, id as int);
        } else if k > id {
            if left.contains(k) {
                assert(false);
            }
            lemma_bounds(nodes, *right, k, id + 1, hi);
        }
    }
}

/// A left child's range ends at its parent; a right child's range starts after it.
pub proof fn lemma_bounds_child(t: Shape, p: usize, c: usize, lo: int, hi: int)
    requires
        t.ordered(),
        t.contains(p),
        t.subtree(p).left_of().root() == Some(c) || t.subtree(p).right_of().root() == Some(c),
    ensures
        t.subtree(p).left_of().root() == Some(c) ==> bounds(t, c, lo, hi) == (bounds(t, p, lo, hi).0, p as int),
        t.subtree(p).right_of().root() == Some(c) ==> bounds(t, c, lo, hi) == (p + 1, bounds(t, p, lo, hi).1),
    decreases t,
{
    if let Shape::Branch { id, left, right } = t {
        crate::shape_facts::lemma_child(t, p, c, None);
        if p == id {
            if left.root() == Some(c) {
                assert(left.contains(c));
                assert(c < id);
                if let Shape::Branch { id: lid, .. } = *left {
                    assert(lid == c);
                    assert(bounds(*left, c, lo, id as int) == (lo, id as int));
                }
            } else {
                assert(right.contains(c));
                assert(c > id);
                if let Shape::Branch { id: rid, .. } = *right {
                    assert(rid == c);
                    assert(bounds(*right, c, id + 1, hi) == (id + 1, hi));
                }
            }
        } else if p < id {
            if right.contains(p) {
                assert(false);
            }
            assert(t.subtree(p) == left.subtree(p));
            crate::shape_facts::lemma_subtree(*left, p);
            lemma_bounds_child(*left, p, c, lo, id as int);
            crate::shape_facts::lemma_child(*left, p, c, Some(id));
            assert(left.contains(c));
            assert(c < id);
        } else {
            if left.contains(p) {
                assert(false);
            }
            assert(t.subtree(p) == right.subtree(p));
            crate::shape_facts::lemma_subtree(*right, p);
            lemma_bounds_child(*right, p, c, id + 1, hi);
            crate::shape_facts::lemma_child(*right, p, c, Some(id));
            assert(right.contains(c));
            assert(c > id);
        }
    }
}

} // verus!

verus! {

impl PieceTree {
    /// The range of slots that the subtree at `k` covers.
    pub open spec fn slot_bounds(&self, k: usize) -> (int, int) {
        bounds(self.shape@, k, 0, self.nodes().len() as int)
    }

    /// The recorded left totals of a node are the totals of the slots of its range before it.
    pub proof fn lemma_bounds_self(&self, k: usize)
        requires
            self.shaped(None, None),
            self.shape@.contains(k),
        ensures
            self.occupied(k),
            0 <= self.slot_bounds(k).0 <= k < self.slot_bounds(k).1 <= self.nodes().len(),
            self.node(k).left_char_count == span_len(self.nodes(), self.slot_bounds(k).0, k as int),
            self.node(k).left_line_count == span_lines(self.nodes(), self.slot_bounds(k).0, k as int),
            slot_len(self.nodes(), k as int) == self.node(k).piece.length,
            crate::doc::slot_lines(self.nodes(), k as int) == self.node(k).piece.line_feed_count,
            self.node(k).parent is None ==> self.slot_bounds(k) == (0int, self.nodes().len() as int),
            covers(self.nodes(), self.shape@.subtree(k), self.slot_bounds(k).0, self.slot_bounds(k).1),
    {
        self.lemma_total_span();
        self.lemma_shaped_basics(None, None);
        let nodes = self.nodes();
        let t = self.shape@;
        let n = nodes.len() as int;
        crate::shape_facts::lemma_subtree(t, k);
        crate::shape_facts::lemma_subtree_links(nodes, t, None, None, k);
        lemma_bounds(nodes, t, k, 0, n);
        let b = self.slot_bounds(k);
        let s = t.subtree(k);
        lemma_covers_split(nodes, s, b.0, b.1);
        lemma_covers_sums(nodes, s.left_of(), Some(k), b.0, k as int);
        assert(self.occupied(k));
        if self.node(k).parent is None {
            crate::metadata::lemma_parent_link(*self, k, None, None);
            if let Shape::Branch { id, .. } = t {
                assert(id == k);
            }
        }
    }

    /// The range of a child relates to its parent's: a left child's ends at the parent, a
    /// right child's starts after it.
    pub proof fn lemma_bounds_parent(&self, c: usize, p: usize)
        requires
            self.shaped(None, None),
            self.shape@.contains(c),
            self.node(c).parent == Some(p),
        ensures
            self.shape@.contains(p),
            self.shape@.depth(c) == self.shape@.depth(p) + 1,
            self.node(p).right == Some(c) ==> self.slot_bounds(c) == (p + 1, self.slot_bounds(p).1),
            self.node(p).right != Some(c) ==> self.slot_bounds(c) == (self.slot_bounds(p).0, p as int)
                && self.node(p).left == Some(c),
            self.node(p).left == Some(c) ==> self.slot_bounds(c) == (self.slot_bounds(p).0, p as int),
    {
        crate::metadata::lemma_parent_link(*self, c, None, None);
        self.lemma_shaped_basics(None, None);
        lemma_bounds_child(self.shape@, p, c, 0, self.nodes().len() as int);
    }

    /// The number of bytes of the document before the piece of slot `idx`.
    pub(crate) fn count_chars_before(&self, idx: usize) -> (r: usize)
        requires
            self.shaped(None, None),
            self.shape@.contains(idx),
        ensures
            r == self.bytes_before(idx as int),
    {
        let ghost nodes = self.nodes();
        proof {
            self.lemma_bounds_self(idx);
            self.lemma_total_span();
            self.lemma_shaped_basics(None, None);
        }
        let node = self.arena.get(idx);
        let mut count = node.left_char_count;
        let mut current = idx;
        loop
            invariant
                self.shaped(None, None),
                nodes == self.nodes(),
                self.shape@.contains(current),
                self.slot_bounds(current).0 <= idx < self.slot_bounds(current).1 <= nodes.len(),
                0 <= self.slot_bounds(current).0,
                count == span_len(nodes, self.slot_bounds(current).0, idx as int),
                span_len(nodes, 0, nodes.len() as int) <= usize::MAX,
            ensures
                count == span_len(nodes, 0, idx as int),
            decreases self.shape@.depth(current),
        {
            proof {
                self.lemma_bounds_self(current);
            }
            let parent = match self.arena.get(current).parent {
                None => break,
                Some(p) => p,
            };
            proof {
                self.lemma_bounds_parent(current, parent);
                self.lemma_bounds_self(parent);
            }
            // coming from the right, the parent's left subtree and piece come before
            if self.arena.get(parent).right == Some(current) {
                let parent_node = self.arena.get(parent);
                proof {
                    let b = self.slot_bounds(parent).0;
                    lemma_span_split(nodes, Seq::empty(), Seq::empty(), b, parent as int, idx as int);
                    lemma_span_split(nodes, Seq::empty(), Seq::empty(), parent as int, parent + 1, idx as int);
                    crate::doc::lemma_span_single(nodes, Seq::empty(), Seq::empty(), parent as int);
                    lemma_span_split(nodes, Seq::empty(), Seq::empty(), 0, b, idx as int);
                    crate::doc::lemma_span_len_mono(nodes, 0, idx as int, nodes.len() as int);
                }
                count = count + parent_node.left_char_count + parent_node.piece.length;
            }
            current = parent;
        }
        count
    }

    /// The number of line feeds of the document before the piece of slot `idx`.
    pub(crate) fn count_lines_before(&self, idx: usize) -> (r: usize)
        requires
            self.shaped(None, None),
            self.shape@.contains(idx),
        ensures
            r == span_lines(self.nodes(), 0, idx as int),
    {
        let ghost nodes = self.nodes();
        proof {
            self.lemma_bounds_self(idx);
            self.lemma_total_span();
            self.lemma_shaped_basics(None, None);
        }
        let node = self.arena.get(idx);
        let mut count = node.left_line_count;
        let mut current = idx;
        loop
            invariant
                self.shaped(None, None),
                nodes == self.nodes(),
                self.shape@.contains(current),
                self.slot_bounds(current).0 <= idx < self.slot_bounds(current).1 <= nodes.len(),
                0 <= self.slot_bounds(current).0,
                count == span_lines(nodes, self.slot_bounds(current).0, idx as int),
                span_lines(nodes, 0, nodes.len() as int) <= usize::MAX,
            ensures
                count == span_lines(nodes, 0, idx as int),
            decreases self.shape@.depth(current),
        {
            proof {
                self.lemma_bounds_self(current);
            }
            let parent = match self.arena.get(current).parent {
                None => break,
                Some(p) => p,
            };
            proof {
                self.lemma_bounds_parent(current, parent);
                self.lemma_bounds_self(parent);
            }
            // coming from the right, the parent's left subtree and piece come before
            if self.arena.get(parent).right == Some(current) {
                let parent_node = self.arena.get(parent);
                proof {
                    let b = self.slot_bounds(parent).0;
                    lemma_span_split(nodes, Seq::empty(), Seq::empty(), b, parent as int, idx as int);
                    lemma_span_split(nodes, Seq::empty(), Seq::empty(), parent as int, parent + 1, idx as int);
                    crate::doc::lemma_span_single(nodes, Seq::empty(), Seq::empty(), parent as int);
                    lemma_span_split(nodes, Seq::empty(), Seq::empty(), 0, b, idx as int);
                    lemma_span_lines_mono(nodes, 0, idx as int, nodes.len() as int);
                }
                count = count + parent_node.left_line_count + parent_node.piece.line_feed_count;
            }
            current = parent;
        }
        count
    }
}

/// Line feed totals of spans grow with their end.
pub proof fn lemma_span_lines_mono(nodes: Seq<Option<Node>>, lo: int, a: int, b: int)
    requires
        lo <= a <= b,
    ensures
        span_lines(nodes, lo, a) <= span_lines(nodes, lo, b),
    decreases b - a,
{
    if a < b {
        lemma_span_lines_mono(nodes, lo, a, b - 1);
    }
}

} // verus!

verus! {

impl PieceTree {
    /// `j` is the first occupied slot after slot `i`.
    pub open spec fn follows(&self, i: usize, j: usize) -> bool {
        &&& i < j
        &&& self.occupied(j)
        &&& forall|m: usize| i < m < j ==> !#[trigger] self.occupied(m)
    }

    /// The node after `idx` in tree order: the leftmost node of its right subtree, or else
    /// the first ancestor reached from its left.
    pub(crate) fn next_node(&self, idx: usize) -> (r: Option<usize>)
        requires
            self.shaped(None, None),
            self.shape@.contains(idx),
        ensures
            r matches Some(j) ==> self.follows(idx, j) && self.shape@.contains(j),
            r is None ==> forall|m: usize| idx < m ==> !#[trigger] self.occupied(m),
    {
        let ghost nodes = self.nodes();
        let ghost n = nodes.len() as int;
        proof {
            self.lemma_bounds_self(idx);
            self.lemma_shaped_basics(None, None);
            crate::balance::lemma_child_link(*self, idx, None, None);
        }
        let node = self.arena.get(idx);
        if let Some(right) = node.right {
            // go right, then all the way left
            proof {
                self.lemma_bounds_parent(right, idx);
            }
            let mut current = right;
            loop
                invariant
                    self.shaped(None, None),
                    nodes == self.nodes(),
                    self.shape@.contains(current),
                    self.slot_bounds(current).0 == idx + 1,
                ensures
                    self.shape@.contains(current),
                    self.slot_bounds(current).0 == idx + 1,
                    self.node(current).left is None,
                decreases self.shape@.subtree(current).size(),
            {
                proof {
                    crate::balance::lemma_child_link(*self, current, None, None);
                }
                match self.arena.get(current).left {
                    None => break,
                    Some(left) => {
                        proof {
                            self.lemma_bounds_parent(left, current);
                            self.lemma_shaped_basics(None, None);
                            crate::shape_facts::lemma_subtree(self.shape@, current);
                            crate::shape_facts::lemma_subtree_links(nodes, self.shape@, None, None, current);
                            crate::shape_facts::lemma_child(self.shape@, current, left, None);
                        }
                        current = left;
                    },
                }
            }
            proof {
                self.lemma_bounds_self(current);
                self.lemma_shaped_basics(None, None);
                let s = self.shape@.subtree(current);
                crate::shape_facts::lemma_subtree(self.shape@, current);
                lemma_covers_split(nodes, s, self.slot_bounds(current).0, self.slot_bounds(current).1);
                crate::shape_facts::lemma_subtree_links(nodes, self.shape@, None, None, current);
                assert(s.left_of() == Shape::Leaf);
                assert forall|m: usize| idx < m < current implies !#[trigger] self.occupied(m) by {
                    if self.occupied(m) {
                        assert(nodes[m as int] is Some);
                        assert(s.left_of().contains(m));
                    }
                }
            }
            return Some(current);
        }
        proof {
            let s = self.shape@.subtree(idx);
            crate::shape_facts::lemma_subtree(self.shape@, idx);
            lemma_covers_split(nodes, s, self.slot_bounds(idx).0, self.slot_bounds(idx).1);
            crate::shape_facts::lemma_subtree_links(nodes, self.shape@, None, None, idx);
            assert(s.right_of() == Shape::Leaf);
            assert forall|m: usize| idx < m < self.slot_bounds(idx).1 implies !#[trigger] self.occupied(m) by {
                if self.occupied(m) {
                    assert(nodes[m as int] is Some);
                    assert(s.right_of().contains(m));
                }
            }
        }

        // walk up until we arrive at a parent from its left
        let mut current = idx;
        loop
            invariant
                self.shaped(None, None),
                nodes == self.nodes(),
                n == nodes.len(),
                self.shape@.contains(current),
                self.slot_bounds(current).0 <= idx < self.slot_bounds(current).1,
                forall|m: usize| idx < m < self.slot_bounds(current).1 ==> !#[trigger] self.occupied(m),
            decreases self.shape@.depth(current),
        {
            proof {
                self.lemma_bounds_self(current);
            }
            let parent = match self.arena.get(current).parent {
                None => {
                    proof {
                        assert forall|m: usize| idx < m implies !#[trigger] self.occupied(m) by {
                            if m >= n {
                                assert(!(m < nodes.len()));
                            }
                        }
                    }
                    return None;
                },
                Some(p) => p,
            };
            proof {
                self.lemma_bounds_parent(current, parent);
                self.lemma_bounds_self(parent);
            }
            if self.arena.get(parent).left == Some(current) {
                return Some(parent);
            }
            current = parent;
        }
    }
}

} // verus!
