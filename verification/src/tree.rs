use vstd::prelude::*;
use vstd::string::StringExecFns;
use vstd::string::StringSliceAdditionalSpecFns;
use vstd::utf8::encode_utf8;
use crate::arena::{Color, Node, NodeArena};
use crate::buffer::{AddBuffer, OriginalBuffer};
use crate::doc::{
    lemma_span_text_shape, lemma_tree_is_span, pieces_ok, span_len, span_lines, span_text, tree_text,
};
use crate::lines::{lemma_newline_offsets_shape, newline_count, newline_offsets, LINE_FEED};
use crate::piece::{piece_text, piece_wf, BufferKind, Piece};
use crate::shape::{char_sum, line_sum, links, node_of, Shape};

verus! {

/// A text document kept as a red-black tree of pieces over two buffers.
pub struct PieceTree {
    pub arena: NodeArena,
    pub root: Option<usize>,
    pub original_buffer: OriginalBuffer,
    pub add_buffer: AddBuffer,
    pub total_length: usize,
    pub total_lines: usize,
    /// The tree that the slots' links form.
    pub shape: Ghost<Shape>,
}

impl PieceTree {
    /// The slots of the arena.
    pub open spec fn nodes(&self) -> Seq<Option<Node>> {
        self.arena.slots()
    }

    /// The bytes of the original buffer.
    pub open spec fn original_bytes(&self) -> Seq<u8> {
        encode_utf8(self.original_buffer.content@)
    }

    /// The bytes of the add buffer.
    pub open spec fn add_bytes(&self) -> Seq<u8> {
        self.add_buffer.bytes()
    }

    /// Slot `i` holds a node.
    pub open spec fn occupied(&self, i: usize) -> bool {
        (i as int) < self.nodes().len() && self.nodes()[i as int] is Some
    }

    /// The node in slot `i`.
    pub open spec fn node(&self, i: usize) -> Node {
        node_of(self.nodes(), i)
    }

    /// The document: the texts of the occupied slots in slot order.
    pub open spec fn doc(&self) -> Seq<u8> {
        span_text(self.nodes(), self.original_bytes(), self.add_bytes(), 0, self.nodes().len() as int)
    }

    /// The text of a subtree, in tree order.
    pub open spec fn text_of(&self, t: Shape) -> Seq<u8> {
        tree_text(self.nodes(), self.original_bytes(), self.add_bytes(), t)
    }

    /// The slots form the ordered tree `shape` (with totals exact except where `stale`
    /// allows), every occupied slot is a node of it (or is `extra`, which is not), and every
    /// piece is well formed.
    #[verifier::opaque]
    pub open spec fn shaped(&self, stale: Option<usize>, extra: Option<usize>) -> bool {
        &&& self.arena.wf()
        &&& self.nodes().len() <= usize::MAX
        &&& self.shape@.ordered()
        &&& links(self.nodes(), self.shape@, None, stale)
        &&& self.root == self.shape@.root()
        &&& forall|i: usize|
            #![trigger self.occupied(i)]
            #![trigger self.shape@.contains(i)]
            self.occupied(i) <==> (self.shape@.contains(i) || extra == Some(i))
        &&& extra matches Some(e) ==> !self.shape@.contains(e)
        &&& pieces_ok(self.nodes(), self.original_bytes(), self.add_bytes())
        &&& self.original_bytes().len() <= usize::MAX
        &&& self.add_bytes().len() <= usize::MAX
        &&& char_sum(self.nodes(), self.shape@) <= usize::MAX
        &&& line_sum(self.nodes(), self.shape@) < usize::MAX
    }

    /// The parts of `shaped` that most proofs need.
    pub proof fn lemma_shaped_basics(&self, stale: Option<usize>, extra: Option<usize>)
        requires
            self.shaped(stale, extra),
        ensures
            self.shape@.ordered(),
            links(self.nodes(), self.shape@, None, stale),
            self.root == self.shape@.root(),
            self.nodes().len() <= usize::MAX,
            forall|i: usize| #[trigger] self.shape@.contains(i) ==> self.occupied(i),
            forall|i: usize| #[trigger] self.occupied(i) ==> self.shape@.contains(i) || extra == Some(i),
            extra matches Some(e) ==> self.occupied(e) && !self.shape@.contains(e),
            char_sum(self.nodes(), self.shape@) <= usize::MAX,
            line_sum(self.nodes(), self.shape@) < usize::MAX,
            self.arena.wf(),
            pieces_ok(self.nodes(), self.original_bytes(), self.add_bytes()),
            self.original_bytes().len() <= usize::MAX,
            self.add_bytes().len() <= usize::MAX,
    {
        reveal(PieceTree::shaped);
    }

    /// Being shaped does not depend on the recorded totals.
    pub proof fn lemma_shaped_same(a: PieceTree, b: PieceTree, stale: Option<usize>, extra: Option<usize>)
        requires
            a.shaped(stale, extra),
            b.arena == a.arena,
            b.root == a.root,
            b.shape == a.shape,
            b.original_buffer == a.original_buffer,
            b.add_buffer == a.add_buffer,
        ensures
            b.shaped(stale, extra),
    {
        reveal(PieceTree::shaped);
    }

    /// The tree is well formed and its totals are those of its pieces.
    pub open spec fn wf(&self) -> bool {
        &&& self.shaped(None, None)
        &&& self.total_length == char_sum(self.nodes(), self.shape@)
        &&& self.total_lines == line_sum(self.nodes(), self.shape@) + 1
        &&& self.original_buffer.line_starts@ == newline_offsets(self.original_bytes())
    }

    /// The root, where there is one, is black.
    pub open spec fn root_black(&self) -> bool {
        self.root matches Some(r) ==> self.node(r).color == Color::Black
    }

    /// Node `i` is red, and so is its parent.
    pub open spec fn red_pair(&self, i: usize) -> bool {
        &&& self.node(i).color == Color::Red
        &&& self.node(i).parent matches Some(p) && self.node(p).color == Color::Red
    }

    /// Every red node of the tree whose parent is red is `except`.
    pub open spec fn red_pairs_only_at(&self, except: Option<usize>) -> bool {
        forall|i: usize| #[trigger] self.red_pair(i) && self.shape@.contains(i) ==> Some(i) == except
    }

    /// Every path from the root down to a leaf passes as many black nodes.
    pub open spec fn black_balanced(&self) -> bool {
        crate::coloring::balanced(self.nodes(), self.shape@)
    }

    /// No red node of the tree has a red parent.
    pub open spec fn no_red_pairs(&self) -> bool {
        self.red_pairs_only_at(None)
    }

    /// The root of a shaped tree, where there is one, is a node of it.
    pub proof fn lemma_root_occupied(&self, stale: Option<usize>, extra: Option<usize>)
        requires
            self.shaped(stale, extra),
        ensures
            self.root matches Some(r) ==> self.occupied(r) && self.shape@.contains(r),
    {
        self.lemma_shaped_basics(stale, extra);
        if let Shape::Branch { id, .. } = self.shape@ {
            assert(self.shape@.contains(id));
        }
    }

    /// In a shaped tree the document reads as the tree in order, and its length and line
    /// feeds are the tree's totals.
    pub proof fn lemma_doc_is_tree(&self, stale: Option<usize>)
        requires
            self.shaped(stale, None),
        ensures
            self.doc() == self.text_of(self.shape@),
            self.doc().len() == char_sum(self.nodes(), self.shape@),
            newline_count(self.doc()) == line_sum(self.nodes(), self.shape@),
    {
        reveal(PieceTree::shaped);
        let nodes = self.nodes();
        assert forall|j: usize| #[trigger] self.shape@.contains(j) implies 0 <= j < nodes.len() by {
            assert(self.occupied(j));
        }
        assert forall|j: int| 0 <= j < nodes.len() && 0 <= j < nodes.len() && #[trigger] nodes[j] is Some
            implies self.shape@.contains(j as usize) by {
            assert(self.occupied(j as usize));
        }
        lemma_tree_is_span(nodes, self.original_bytes(), self.add_bytes(), self.shape@, None, stale, 0, nodes.len() as int);
        lemma_span_text_shape(nodes, self.original_bytes(), self.add_bytes(), 0, nodes.len() as int);
    }

    /// A document holding `text` as a single piece of the original buffer.
    pub fn new(text: &str) -> (r: Self)
        requires
            text.spec_bytes().len() < usize::MAX,
        ensures
            r.wf(),
            r.doc() == text.spec_bytes(),
            r.original_bytes() == text.spec_bytes(),
            r.add_bytes() == Seq::<u8>::empty(),
            r.add_buffer.line_starts@ == Seq::<usize>::empty(),
            r.original_buffer.line_starts@ == newline_offsets(text.spec_bytes()),
            r.nodes().len() == 1,
            r.root == Some(0usize),
            r.node(0).piece.buffer_kind == BufferKind::Original,
            r.node(0).piece.start == 0,
            r.node(0).piece.length == text.spec_bytes().len(),
            r.node(0).piece.line_starts@ == newline_offsets(text.spec_bytes()),
            r.node(0).piece.line_feed_count == newline_offsets(text.spec_bytes()).len(),
            r.node(0).color == Color::Black,
            r.node(0).left is None && r.node(0).right is None && r.node(0).parent is None,
            r.node(0).left_char_count == 0 && r.node(0).left_line_count == 0,
            r.arena.free_slots() == Seq::<usize>::empty(),
            r.aligned(),
            r.root_black(),
            r.no_red_pairs(),
            r.black_balanced(),
    {
        let mut arena = NodeArena::new();
        let add_buffer = AddBuffer::new();

        // scan the original text for line feeds
        let bytes = text.as_bytes();
        let mut line_starts: Vec<usize> = Vec::new();
        let mut i: usize = 0;
        while i < bytes.len()
            invariant
                i <= bytes@.len(),
                bytes@ == text.spec_bytes(),
                bytes@.len() < usize::MAX,
                line_starts@ == newline_offsets(bytes@.take(i as int)),
            decreases bytes@.len() - i,
        {
            proof {
                assert(bytes@.take(i + 1).drop_last() =~= bytes@.take(i as int));
            }
            if bytes[i] == LINE_FEED {
                line_starts.push(i);
            }
            i += 1;
        }
        proof {
            assert(bytes@.take(i as int) =~= bytes@);
        }
        let mut copied: Vec<usize> = Vec::new();
        let mut k: usize = 0;
        while k < line_starts.len()
            invariant
                k <= line_starts.len(),
                copied@ == line_starts@.take(k as int),
            decreases line_starts.len() - k,
        {
            copied.push(line_starts[k]);
            k += 1;
            assert(copied@ =~= line_starts@.take(k as int));
        }
        assert(copied@ =~= line_starts@);

        let original_buffer = OriginalBuffer { content: String::from_str(text), line_starts: copied };

        // the root piece covers the entire original buffer
        let piece = Piece::new(BufferKind::Original, 0, text.len(), line_starts);
        proof {
            lemma_newline_offsets_shape(text.spec_bytes());
        }
        let total_lines = piece.line_feed_count + 1;
        let total_length = piece.length;

        let root_node = Node {
            piece,
            left_char_count: 0,
            left_line_count: 0,
            color: Color::Black,
            left: None,
            right: None,
            parent: None,
        };
        let root = Some(arena.allocate(root_node));
        let r = Self {
            arena,
            root,
            original_buffer,
            add_buffer,
            total_length,
            total_lines,
            shape: Ghost(Shape::Branch { id: 0, left: Box::new(Shape::Leaf), right: Box::new(Shape::Leaf) }),
        };
        proof {
            reveal(PieceTree::shaped);
            let ob = r.original_bytes();
            assert(ob == text.spec_bytes());
            assert(ob.subrange(0, ob.len() as int) =~= ob);
            assert(encode_utf8(r.add_buffer.content@) =~= Seq::<u8>::empty());
            assert(r.nodes().len() == 1);
            assert(r.nodes()[0] is Some);
            assert(links(r.nodes(), Shape::Leaf, Some(0), None));
            assert(char_sum(r.nodes(), Shape::Leaf) == 0);
            assert(line_sum(r.nodes(), Shape::Leaf) == 0);
            assert forall|i: usize|
                #![trigger r.occupied(i)]
                #![trigger r.shape@.contains(i)]
                r.occupied(i) <==> (r.shape@.contains(i) || None::<usize> == Some(i)) by {
                assert(!Shape::Leaf.contains(i));
                assert(r.shape@.contains(i) == (i == 0));
            }
            assert(r.arena.wf());
            assert(links(r.nodes(), r.shape@, None, None));
            assert(char_sum(r.nodes(), r.shape@) == text.spec_bytes().len());
            assert(pieces_ok(r.nodes(), r.original_bytes(), r.add_bytes()));
            assert(Shape::Leaf.ordered());
            assert(forall|j: usize| !Shape::Leaf.contains(j));
            assert(r.shape@.ordered());
            assert(r.root == r.shape@.root());
            assert(r.original_bytes().len() <= usize::MAX);
            assert(r.add_bytes().len() <= usize::MAX);
            assert(line_sum(r.nodes(), r.shape@) < usize::MAX);
            assert(r.shaped(None, None));
            r.lemma_doc_is_tree(None);
            assert(r.text_of(r.shape@) =~= ob);
            vstd::utf8::encode_utf8_valid_utf8(r.original_buffer.content@);
            vstd::utf8::is_char_boundary_start_end_of_seq(ob);
            assert forall|i: usize| #[trigger] r.occupied(i) implies {
                let p = r.node(i).piece;
                let buf = crate::doc::buffer_for(p.buffer_kind, r.original_bytes(), r.add_bytes());
                &&& vstd::utf8::is_char_boundary(buf, p.start as int)
                &&& vstd::utf8::is_char_boundary(buf, p.start + p.length)
            } by {
                assert(i == 0);
            }
            assert forall|i: usize| #[trigger] r.red_pair(i) && r.shape@.contains(i) implies Some(i) == None::<usize> by {
                assert(i == 0);
            }
            assert(r.black_balanced()) by {
                reveal_with_fuel(crate::coloring::balanced, 2);
            }
        }
        r
    }

    /// The length of the document in bytes.
    pub fn len(&self) -> (r: usize)
        ensures
            r == self.total_length,
            self.wf() ==> r == self.doc().len(),
    {
        proof {
            if self.wf() {
                self.lemma_doc_is_tree(None);
            }
        }
        self.total_length
    }

    /// The number of lines of the document: one more than its line feeds.
    pub fn line_count(&self) -> (r: usize)
        ensures
            r == self.total_lines,
            self.wf() ==> r == newline_count(self.doc()) + 1,
    {
        proof {
            if self.wf() {
                self.lemma_doc_is_tree(None);
            }
        }
        self.total_lines
    }
}

} // verus!
