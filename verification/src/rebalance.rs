use vstd::prelude::*;
use crate::arena::{Color, Node};
use crate::doc::pieces_ok;
use crate::shape::{
    agree_at, agree_on, char_sum, lemma_frame, lemma_links_occupied_all, lemma_reparent, line_sum, links, node_of, rotated_left,
    rotated_right, same_links, Shape,
};
use crate::shape_facts::{
    lemma_parent_child, lemma_parent_in, lemma_parent_is_top, lemma_replace, lemma_replace_ordered,
    lemma_subtree, lemma_subtree_links, lemma_subtree_sums, lemma_unstale, lemma_within_same, relinked,
};
use crate::tree::PieceTree;

verus! {

/// `b` has the slots, pieces, colors, free list, buffers and totals of `a`.
pub open spec fn same_payload(a: PieceTree, b: PieceTree) -> bool {
    &&& a.nodes().len() == b.nodes().len()
    &&& forall|i: int|
        #![trigger b.nodes()[i]]
        0 <= i < a.nodes().len() ==> (a.nodes()[i] is Some <==> b.nodes()[i] is Some) && (a.nodes()[i] is Some
            ==> a.nodes()[i].unwrap().piece == b.nodes()[i].unwrap().piece)
    &&& a.arena.free_slots() == b.arena.free_slots()
    &&& a.original_buffer == b.original_buffer
    &&& a.add_buffer == b.add_buffer
    &&& a.total_length == b.total_length
    &&& a.total_lines == b.total_lines
}

/// `b` differs from `a` at most in the colors of its nodes.
pub open spec fn same_but_colors(a: PieceTree, b: PieceTree) -> bool {
    &&& same_payload(a, b)
    &&& b.shape@ == a.shape@
    &&& b.root == a.root
    &&& forall|i: usize| #[trigger] a.occupied(i) ==> same_links(a.node(i), b.node(i))
}

/// The colors of `b` are those of `a`.
pub open spec fn same_colors(a: PieceTree, b: PieceTree) -> bool {
    forall|i: usize| #[trigger] a.occupied(i) ==> b.node(i).color == a.node(i).color
}

/// Shaped trees stay shaped when only colors change.
pub proof fn lemma_shaped_colors(a: PieceTree, b: PieceTree, stale: Option<usize>, extra: Option<usize>)
    requires
        a.shaped(stale, extra),
        same_but_colors(a, b),
    ensures
        b.shaped(stale, extra),
        char_sum(b.nodes(), b.shape@) == char_sum(a.nodes(), a.shape@),
        line_sum(b.nodes(), b.shape@) == line_sum(a.nodes(), a.shape@),
{
    reveal(PieceTree::shaped);    assert forall|i: usize| #[trigger] b.occupied(i) == a.occupied(i) by {
        if (i as int) < a.nodes().len() {
            assert(b.nodes()[i as int] is Some == a.nodes()[i as int] is Some);
        }
    }
    assert(agree_on(a.nodes(), b.nodes(), a.shape@)) by {
        assert forall|i: usize| #[trigger] a.shape@.contains(i) implies agree_at(a.nodes(), b.nodes(), i) by {
            assert(a.occupied(i));
            assert(b.occupied(i));
        }
    }
    lemma_frame(a.nodes(), b.nodes(), a.shape@, None, stale);
    assert forall|i: int| 0 <= i < b.nodes().len() && #[trigger] b.nodes()[i] is Some implies crate::piece::piece_wf(
        b.nodes()[i].unwrap().piece,
        crate::doc::buffer_for(b.nodes()[i].unwrap().piece.buffer_kind, b.original_bytes(), b.add_bytes()),
    ) by {
        assert(a.nodes()[i] is Some);
    }
    assert forall|k: int| 0 <= k < b.arena.free_slots().len() implies {
        &&& #[trigger] b.arena.free_slots()[k] < b.arena.slots().len()
        &&& b.arena.slots()[b.arena.free_slots()[k] as int] is None
    } by {
        assert(a.arena.free_slots()[k] < a.arena.slots().len());
        assert(a.arena.slots()[a.arena.free_slots()[k] as int] is None);
    }
    assert forall|i: int| 0 <= i < b.arena.slots().len() && #[trigger] b.arena.slots()[i] is None
        implies b.arena.free_slots().contains(i as usize) by {
        assert(a.arena.slots()[i] is None);
    }
}


/// A tree in which the subtree at `x` was replaced by a well-linked `n` over the same slots,
/// with nothing else changed but the parent's link to it, is shaped like the old one.
pub proof fn lemma_relink_done(old: PieceTree, new: PieceTree, x: usize, n: Shape, extra: Option<usize>)
    requires
        old.shaped(None, extra),
        old.shape@.contains(x),
        n.ordered(),
        n.root() is Some,
        forall|j: usize| n.contains(j) <==> old.shape@.subtree(x).contains(j),
        links(new.nodes(), n, old.shape@.parent_of(x, None), None),
        char_sum(new.nodes(), n) == char_sum(old.nodes(), old.shape@.subtree(x)),
        line_sum(new.nodes(), n) == line_sum(old.nodes(), old.shape@.subtree(x)),
        forall|j: usize| #[trigger] old.shape@.contains(j) && !old.shape@.subtree(x).contains(j) && Some(j)
            != old.shape@.parent_of(x, None) ==> agree_at(old.nodes(), new.nodes(), j),
        old.shape@.parent_of(x, None) matches Some(pp) ==> relinked(old.nodes(), new.nodes(), pp, x, n.root()),
        same_payload(old, new),
        new.shape@ == old.shape@.replace(x, n),
        new.root == (if old.shape@.parent_of(x, None) is None { n.root() } else { old.root }),
    ensures
        new.shaped(None, extra),
        forall|j: usize| #[trigger] new.shape@.contains(j) == old.shape@.contains(j),
        char_sum(new.nodes(), new.shape@) == char_sum(old.nodes(), old.shape@),
        line_sum(new.nodes(), new.shape@) == line_sum(old.nodes(), old.shape@),
{
    reveal(PieceTree::shaped);    let t = old.shape@;
    let nodes0 = old.nodes();
    let nodes2 = new.nodes();
    lemma_subtree(t, x);
    lemma_within_same(t, x, n);
    lemma_parent_in(t, x, None);
    lemma_replace(nodes0, nodes2, t, None, x, n);
    lemma_replace_ordered(t, x, n);
    if old.shape@.parent_of(x, None) is None {
        lemma_parent_is_top(t, x, None);
        assert(new.shape@ == n);
    } else {
        if t.root() == Some(x) {
            assert(t.parent_of(x, None) is None);
        }
        assert(new.shape@.root() == t.root());
    }
    assert forall|j: usize| #[trigger] new.shape@.contains(j) == old.shape@.contains(j) by {
        if t.subtree(x).contains(j) {
            assert(t.contains(j));
        }
    }
    assert(links(nodes2, new.shape@, None, None));
    assert forall|i: usize| #[trigger] new.occupied(i) == old.occupied(i) by {
        if (i as int) < nodes0.len() {
            assert(nodes2[i as int] is Some == nodes0[i as int] is Some);
        }
    }
    assert(new.arena.wf()) by {
        assert forall|k: int| 0 <= k < new.arena.free_slots().len() implies {
            &&& #[trigger] new.arena.free_slots()[k] < new.arena.slots().len()
            &&& new.arena.slots()[new.arena.free_slots()[k] as int] is None
        } by {
            assert(old.arena.free_slots()[k] < old.arena.slots().len());
            assert(nodes2[new.arena.free_slots()[k] as int] is Some == nodes0[new.arena.free_slots()[k] as int] is Some);
        }
        assert forall|i: int| 0 <= i < new.arena.slots().len() && #[trigger] new.arena.slots()[i] is None
            implies new.arena.free_slots().contains(i as usize) by {
            assert(nodes2[i] is Some == nodes0[i] is Some);
        }
    }
    assert(pieces_ok(new.nodes(), new.original_bytes(), new.add_bytes())) by {
        assert forall|i: int| 0 <= i < nodes2.len() && #[trigger] nodes2[i] is Some implies crate::piece::piece_wf(
            nodes2[i].unwrap().piece,
            crate::doc::buffer_for(nodes2[i].unwrap().piece.buffer_kind, new.original_bytes(), new.add_bytes()),
        ) by {
            assert(nodes0[i] is Some);
        }
    }
}

/// Facts about the nodes a left rotation at `idx` touches.
pub proof fn lemma_rotl_facts(nodes0: Seq<Option<Node>>, t: Shape, idx: usize, right: usize, extra: Option<usize>, tree: PieceTree)
    requires
        tree.shaped(None, extra),
        nodes0 == tree.nodes(),
        t == tree.shape@,
        t.contains(idx),
        node_of(nodes0, idx).right == Some(right),
    ensures
        t.contains(right),
        idx < right,
        tree.occupied(idx),
        tree.occupied(right),
        node_of(nodes0, idx).parent == t.parent_of(idx, None),
        node_of(nodes0, idx).parent matches Some(pp) ==> t.contains(pp) && pp != idx && pp != right
            && tree.occupied(pp) && Some(pp) != node_of(nodes0, right).left,
        node_of(nodes0, right).left matches Some(bb) ==> {
            &&& t.contains(bb)
            &&& idx < bb < right
            &&& tree.occupied(bb)
            &&& t.subtree(bb) == t.subtree(right).left_of()
            &&& node_of(nodes0, bb).parent == Some(right)
        },
        node_of(nodes0, idx).left_char_count + node_of(nodes0, idx).piece.length + (match node_of(nodes0, right).left {
            Some(bb) => char_sum(nodes0, t.subtree(bb)),
            None => 0,
        }) <= usize::MAX,
        node_of(nodes0, idx).left_line_count + node_of(nodes0, idx).piece.line_feed_count + (match node_of(nodes0, right).left {
            Some(bb) => line_sum(nodes0, t.subtree(bb)),
            None => 0,
        }) <= usize::MAX,
{
    reveal(PieceTree::shaped);    lemma_subtree(t, idx);
    lemma_subtree_links(nodes0, t, None, None, idx);
    lemma_parent_in(t, idx, None);
    let s = t.subtree(idx);
    crate::shape_facts::lemma_child(t, idx, right, None);
    lemma_subtree(t, right);
    lemma_subtree_links(nodes0, t, None, None, right);
    let rt = t.subtree(right);
    assert(s.right_of() == rt);
    assert(s.ordered());
    assert(rt.ordered());
    assert(tree.occupied(idx));
    assert(tree.occupied(right));
    if let Shape::Branch { id: sid, left: sl, right: sr } = s {
        assert(*sr == rt);
        if let Shape::Branch { id: rid, left: rl, right: rr } = rt {
            assert(rt.contains(right));
            assert(s.contains(right));
            if let Some(bb) = node_of(nodes0, right).left {
                crate::shape_facts::lemma_child(t, right, bb, None);
                lemma_subtree_links(nodes0, t, None, None, bb);
                assert(rl.contains(bb));
                assert(rt.contains(bb));
                assert(s.contains(bb));
                assert(tree.occupied(bb));
            }
        }
    }
    if let Some(pp) = node_of(nodes0, idx).parent {
        assert(tree.occupied(pp));
        assert(!s.contains(pp));
    }
    lemma_subtree_sums(nodes0, t, idx);
    assert(char_sum(nodes0, s) == char_sum(nodes0, s.left_of()) + node_of(nodes0, idx).piece.length + char_sum(nodes0, rt));
    assert(line_sum(nodes0, s) == line_sum(nodes0, s.left_of()) + node_of(nodes0, idx).piece.line_feed_count + line_sum(nodes0, rt));
}

/// After the link updates of a left rotation at `idx`, the rotated subtree is well linked
/// under the old parent of `idx`, with the same slots and totals.
pub proof fn lemma_rotl_links(
    nodes0: Seq<Option<Node>>,
    nodes2: Seq<Option<Node>>,
    t: Shape,
    idx: usize,
    right: usize,
    bl: Option<usize>,
    p: Option<usize>,
)
    requires
        t.ordered(),
        links(nodes0, t, None, None),
        t.contains(idx),
        node_of(nodes0, idx).right == Some(right),
        node_of(nodes0, right).left == bl,
        p == node_of(nodes0, idx).parent,
        nodes2.len() == nodes0.len(),
        nodes2[idx as int] is Some,
        nodes2[right as int] is Some,
        ({
            let x0 = node_of(nodes0, idx);
            let x2 = node_of(nodes2, idx);
            &&& x2.piece.length == x0.piece.length
            &&& x2.piece.line_feed_count == x0.piece.line_feed_count
            &&& x2.left_char_count == x0.left_char_count
            &&& x2.left_line_count == x0.left_line_count
            &&& x2.left == x0.left
            &&& x2.right == bl
            &&& x2.parent == Some(right)
        }),
        ({
            let x0 = node_of(nodes0, idx);
            let r0 = node_of(nodes0, right);
            let r2 = node_of(nodes2, right);
            &&& r2.piece.length == r0.piece.length
            &&& r2.piece.line_feed_count == r0.piece.line_feed_count
            &&& r2.parent == p
            &&& r2.left == Some(idx)
            &&& r2.right == r0.right
            &&& r2.left_char_count == x0.left_char_count + x0.piece.length + (match bl {
                Some(bb) => char_sum(nodes0, t.subtree(bb)),
                None => 0,
            })
            &&& r2.left_line_count == x0.left_line_count + x0.piece.line_feed_count + (match bl {
                Some(bb) => line_sum(nodes0, t.subtree(bb)),
                None => 0,
            })
        }),
        bl matches Some(bb) ==> {
            &&& (bb as int) < nodes2.len()
            &&& nodes2[bb as int] is Some
            &&& node_of(nodes2, bb).parent == Some(idx)
            &&& same_links(node_of(nodes0, bb), Node { parent: Some(right), ..node_of(nodes2, bb) })
        },
        forall|j: usize| #[trigger] t.contains(j) && j != idx && j != right && Some(j) != bl && Some(j) != p
            ==> nodes2[j as int] == nodes0[j as int],
        p matches Some(pp) ==> {
            let q0 = node_of(nodes0, pp);
            let q2 = node_of(nodes2, pp);
            &&& (pp as int) < nodes2.len()
            &&& nodes2[pp as int] is Some
            &&& q2.piece.length == q0.piece.length
            &&& q2.piece.line_feed_count == q0.piece.line_feed_count
            &&& q2.left_char_count == q0.left_char_count
            &&& q2.left_line_count == q0.left_line_count
            &&& q2.parent == q0.parent
            &&& q2.left == (if q0.left == Some(idx) { Some(right) } else { q0.left })
            &&& q2.right == (if q0.left == Some(idx) { q0.right } else { Some(right) })
        },
    ensures
        links(nodes2, rotated_left(t.subtree(idx)), p, None),
        rotated_left(t.subtree(idx)).ordered(),
        rotated_left(t.subtree(idx)).root() == Some(right),
        forall|j: usize| rotated_left(t.subtree(idx)).contains(j) <==> t.subtree(idx).contains(j),
        char_sum(nodes2, rotated_left(t.subtree(idx))) == char_sum(nodes0, t.subtree(idx)),
        line_sum(nodes2, rotated_left(t.subtree(idx))) == line_sum(nodes0, t.subtree(idx)),
        forall|j: usize| #[trigger] t.contains(j) && !t.subtree(idx).contains(j) && Some(j) != t.parent_of(idx, None)
            ==> agree_at(nodes0, nodes2, j),
        p matches Some(pp) ==> relinked(nodes0, nodes2, pp, idx, Some(right)),
{
    lemma_subtree(t, idx);
    lemma_subtree_links(nodes0, t, None, None, idx);
    lemma_parent_in(t, idx, None);
    lemma_links_occupied_all(nodes0, t);
    let s = t.subtree(idx);
    crate::shape_facts::lemma_child(t, idx, right, None);
    let a = s.left_of();
    let rt = s.right_of();
    let b = rt.left_of();
    let c = rt.right_of();
    assert(s == Shape::Branch { id: idx, left: Box::new(a), right: Box::new(rt) });
    assert(links(nodes0, s, p, None));
    assert(links(nodes0, rt, Some(idx), None));
    assert(rt == Shape::Branch { id: right, left: Box::new(b), right: Box::new(c) });
    assert(s.ordered());
    assert(rt.ordered());
    assert(bl == b.root());
    let n = rotated_left(s);
    let x_sub = Shape::Branch { id: idx, left: Box::new(a), right: Box::new(b) };
    assert(n == Shape::Branch { id: right, left: Box::new(x_sub), right: Box::new(c) });
    assert forall|j: usize| #[trigger] a.contains(j) implies j < idx && s.contains(j) by {}
    assert forall|j: usize| #[trigger] b.contains(j) implies idx < j < right && s.contains(j) by {
        assert(rt.contains(j));
    }
    assert forall|j: usize| #[trigger] c.contains(j) implies right < j && s.contains(j) by {
        assert(rt.contains(j));
    }
    if let Some(pp) = p {
        assert(!s.contains(pp));
    }
    assert forall|j: usize| #[trigger] s.contains(j) implies t.contains(j) by {}
    assert(agree_on(nodes0, nodes2, a)) by {
        assert forall|j: usize| #[trigger] a.contains(j) implies agree_at(nodes0, nodes2, j) by {
            if Some(j) == bl {
                assert(b.contains(j));
            }
        }
    }
    lemma_frame(nodes0, nodes2, a, Some(idx), None);
    assert(agree_on(nodes0, nodes2, c)) by {
        assert forall|j: usize| #[trigger] c.contains(j) implies agree_at(nodes0, nodes2, j) by {
            if Some(j) == bl {
                assert(b.contains(j));
            }
        }
    }
    lemma_frame(nodes0, nodes2, c, Some(right), None);
    assert(links(nodes0, b, Some(right), None));
    if let Some(bb) = bl {
        assert forall|j: usize| #[trigger] b.contains(j) && j != bb implies agree_at(nodes0, nodes2, j) by {}
        assert(b.ordered());
        lemma_reparent(nodes0, nodes2, b, Some(right), Some(idx), None);
        crate::shape_facts::lemma_child(t, right, bb, None);
        assert(t.subtree(bb) == b);
    } else {
        assert(b == Shape::Leaf);
    }
    assert(links(nodes2, a, Some(idx), None));
    assert(links(nodes2, b, Some(idx), None));
    assert(node_of(nodes2, idx).left_char_count == char_sum(nodes2, a));
    assert(node_of(nodes2, idx).left_line_count == line_sum(nodes2, a));
    assert(node_of(nodes2, idx).left == a.root());
    assert(node_of(nodes2, idx).right == b.root());
    assert((idx as int) < nodes2.len());
    assert(links(nodes2, x_sub, Some(right), None));
    assert(char_sum(nodes2, b) == (match bl {
        Some(bb) => char_sum(nodes0, t.subtree(bb)),
        None => 0,
    }));
    assert(line_sum(nodes2, b) == (match bl {
        Some(bb) => line_sum(nodes0, t.subtree(bb)),
        None => 0,
    }));
    assert(char_sum(nodes2, x_sub) == char_sum(nodes2, a) + node_of(nodes2, idx).piece.length + char_sum(nodes2, b));
    assert(node_of(nodes2, right).left_char_count == char_sum(nodes2, x_sub));
    assert(node_of(nodes2, right).right == c.root());
    assert(links(nodes2, n, p, None));
    assert forall|j: usize| n.contains(j) <==> s.contains(j) by {
        assert(x_sub.contains(j) == (j == idx || a.contains(j) || b.contains(j)));
        assert(rt.contains(j) == (j == right || b.contains(j) || c.contains(j)));
    }
    assert(x_sub.ordered());
    assert forall|j: usize| x_sub.contains(j) implies j < right by {
        assert(x_sub.contains(j) == (j == idx || a.contains(j) || b.contains(j)));
    }
    assert forall|j: usize| c.contains(j) implies j > right by {}
    assert(n.ordered());
    assert(char_sum(nodes2, n) == char_sum(nodes2, x_sub) + node_of(nodes2, right).piece.length + char_sum(nodes2, c));
    assert(char_sum(nodes0, s) == char_sum(nodes0, a) + node_of(nodes0, idx).piece.length + char_sum(nodes0, rt));
    assert(char_sum(nodes0, rt) == char_sum(nodes0, b) + node_of(nodes0, right).piece.length + char_sum(nodes0, c));
    assert(line_sum(nodes2, n) == line_sum(nodes2, x_sub) + node_of(nodes2, right).piece.line_feed_count + line_sum(nodes2, c));
    assert(line_sum(nodes2, x_sub) == line_sum(nodes2, a) + node_of(nodes2, idx).piece.line_feed_count + line_sum(nodes2, b));
    assert(line_sum(nodes0, s) == line_sum(nodes0, a) + node_of(nodes0, idx).piece.line_feed_count + line_sum(nodes0, rt));
    assert(line_sum(nodes0, rt) == line_sum(nodes0, b) + node_of(nodes0, right).piece.line_feed_count + line_sum(nodes0, c));
    assert forall|j: usize| #[trigger] t.contains(j) && !t.subtree(idx).contains(j) && Some(j) != t.parent_of(idx, None)
        implies agree_at(nodes0, nodes2, j) by {
        if Some(j) == bl {
            assert(b.contains(j));
        }
    }
    if let Some(pp) = p {
        lemma_parent_child(t, idx, None);
        lemma_subtree_links(nodes0, t, None, None, pp);
        lemma_subtree(t, pp);
        if idx < pp {
            assert(node_of(nodes0, pp).left == Some(idx));
        } else {
            assert(node_of(nodes0, pp).right == Some(idx));
            let sp = t.subtree(pp);
            if let Shape::Branch { id: spid, left: spl, right: spr } = sp {
                if spl.root() == Some(idx) {
                    assert(spl.contains(idx));
                    assert(sp.ordered());
                }
            }
            assert(node_of(nodes0, pp).left != Some(idx));
        }
        assert(relinked(nodes0, nodes2, pp, idx, Some(right)));
    }
}

/// Slot `j` is occupied before and after, with the same piece and color.
pub open spec fn written_keeps_payload(nodes0: Seq<Option<Node>>, nodes2: Seq<Option<Node>>, j: usize) -> bool {
    &&& (j as int) < nodes0.len()
    &&& nodes0[j as int] is Some
    &&& nodes2[j as int] is Some
    &&& node_of(nodes2, j).piece == node_of(nodes0, j).piece
    &&& node_of(nodes2, j).color == node_of(nodes0, j).color
}

/// Link updates to at most four slots keep the payload and the colors.
pub proof fn lemma_writes_keep_payload(old: PieceTree, new: PieceTree, a: usize, b: usize, c: Option<usize>, d: Option<usize>)
    requires
        new.nodes().len() == old.nodes().len(),
        old.nodes().len() <= usize::MAX,
        forall|j: int| 0 <= j < old.nodes().len() && j != a && j != b && Some(j as usize) != c && Some(j as usize) != d
            ==> new.nodes()[j] == old.nodes()[j],
        written_keeps_payload(old.nodes(), new.nodes(), a),
        written_keeps_payload(old.nodes(), new.nodes(), b),
        c matches Some(cc) ==> written_keeps_payload(old.nodes(), new.nodes(), cc),
        d matches Some(dd) ==> written_keeps_payload(old.nodes(), new.nodes(), dd),
        new.arena.free_slots() == old.arena.free_slots(),
        new.original_buffer == old.original_buffer,
        new.add_buffer == old.add_buffer,
        new.total_length == old.total_length,
        new.total_lines == old.total_lines,
    ensures
        same_payload(old, new),
        same_colors(old, new),
        forall|j: int| 0 <= j < old.nodes().len() && j != a && j != b && Some(j as usize) != c && Some(j as usize) != d
            ==> new.nodes()[j] == old.nodes()[j],
{
    assert forall|i: int| 0 <= i < old.nodes().len() implies (old.nodes()[i] is Some <==> #[trigger] new.nodes()[i] is Some)
        && (old.nodes()[i] is Some ==> old.nodes()[i].unwrap().piece == new.nodes()[i].unwrap().piece) by {
        let u = i as usize;
        assert(u as int == i);
        if i == a || i == b || Some(u) == c || Some(u) == d {
            if Some(u) == c {
                assert(written_keeps_payload(old.nodes(), new.nodes(), u));
            }
            if Some(u) == d {
                assert(written_keeps_payload(old.nodes(), new.nodes(), u));
            }
        }
    }
    assert forall|i: usize| #[trigger] old.occupied(i) implies new.node(i).color == old.node(i).color by {}
}

/// Facts about the nodes a right rotation at `idx` touches.
pub proof fn lemma_rotr_facts(nodes0: Seq<Option<Node>>, t: Shape, idx: usize, left: usize, extra: Option<usize>, tree: PieceTree)
    requires
        tree.shaped(None, extra),
        nodes0 == tree.nodes(),
        t == tree.shape@,
        t.contains(idx),
        node_of(nodes0, idx).left == Some(left),
    ensures
        t.contains(left),
        left < idx,
        tree.occupied(idx),
        tree.occupied(left),
        node_of(nodes0, idx).parent == t.parent_of(idx, None),
        node_of(nodes0, idx).parent matches Some(pp) ==> t.contains(pp) && pp != idx && pp != left
            && tree.occupied(pp) && Some(pp) != node_of(nodes0, left).right,
        node_of(nodes0, left).right matches Some(bb) ==> {
            &&& t.contains(bb)
            &&& left < bb < idx
            &&& tree.occupied(bb)
            &&& t.subtree(bb) == t.subtree(left).right_of()
            &&& node_of(nodes0, bb).parent == Some(left)
        },
{
    reveal(PieceTree::shaped);
    lemma_subtree(t, idx);
    lemma_subtree_links(nodes0, t, None, None, idx);
    lemma_parent_in(t, idx, None);
    let s = t.subtree(idx);
    crate::shape_facts::lemma_child(t, idx, left, None);
    lemma_subtree(t, left);
    lemma_subtree_links(nodes0, t, None, None, left);
    let lt = t.subtree(left);
    assert(s.left_of() == lt);
    assert(s.ordered());
    assert(lt.ordered());
    assert(tree.occupied(idx));
    assert(tree.occupied(left));
    if let Shape::Branch { id: sid, left: sl, right: sr } = s {
        assert(*sl == lt);
        if let Shape::Branch { id: lid, left: ll, right: lr } = lt {
            assert(lt.contains(left));
            assert(s.contains(left));
            if let Some(bb) = node_of(nodes0, left).right {
                crate::shape_facts::lemma_child(t, left, bb, None);
                lemma_subtree_links(nodes0, t, None, None, bb);
                assert(lr.contains(bb));
                assert(lt.contains(bb));
                assert(s.contains(bb));
                assert(tree.occupied(bb));
            }
        }
    }
    if let Some(pp) = node_of(nodes0, idx).parent {
        assert(tree.occupied(pp));
        assert(!s.contains(pp));
    }
}

/// After the link updates of a right rotation at `idx`, the rotated subtree is well linked
/// under the old parent of `idx`, with the same slots and totals.
pub proof fn lemma_rotr_links(
    nodes0: Seq<Option<Node>>,
    nodes2: Seq<Option<Node>>,
    t: Shape,
    idx: usize,
    left: usize,
    br: Option<usize>,
    p: Option<usize>,
)
    requires
        t.ordered(),
        links(nodes0, t, None, None),
        t.contains(idx),
        node_of(nodes0, idx).left == Some(left),
        node_of(nodes0, left).right == br,
        p == node_of(nodes0, idx).parent,
        nodes2.len() == nodes0.len(),
        nodes2[idx as int] is Some,
        nodes2[left as int] is Some,
        ({
            let x0 = node_of(nodes0, idx);
            let x2 = node_of(nodes2, idx);
            &&& x2.piece.length == x0.piece.length
            &&& x2.piece.line_feed_count == x0.piece.line_feed_count
            &&& x2.left_char_count == (match br {
                Some(bb) => char_sum(nodes0, t.subtree(bb)),
                None => 0,
            })
            &&& x2.left_line_count == (match br {
                Some(bb) => line_sum(nodes0, t.subtree(bb)),
                None => 0,
            })
            &&& x2.right == x0.right
            &&& x2.left == br
            &&& x2.parent == Some(left)
        }),
        ({
            let l0 = node_of(nodes0, left);
            let l2 = node_of(nodes2, left);
            &&& l2.piece.length == l0.piece.length
            &&& l2.piece.line_feed_count == l0.piece.line_feed_count
            &&& l2.parent == p
            &&& l2.right == Some(idx)
            &&& l2.left == l0.left
            &&& l2.left_char_count == l0.left_char_count
            &&& l2.left_line_count == l0.left_line_count
        }),
        br matches Some(bb) ==> {
            &&& (bb as int) < nodes2.len()
            &&& nodes2[bb as int] is Some
            &&& node_of(nodes2, bb).parent == Some(idx)
            &&& same_links(node_of(nodes0, bb), Node { parent: Some(left), ..node_of(nodes2, bb) })
        },
        forall|j: usize| #[trigger] t.contains(j) && j != idx && j != left && Some(j) != br && Some(j) != p
            ==> nodes2[j as int] == nodes0[j as int],
        p matches Some(pp) ==> {
            let q0 = node_of(nodes0, pp);
            let q2 = node_of(nodes2, pp);
            &&& (pp as int) < nodes2.len()
            &&& nodes2[pp as int] is Some
            &&& q2.piece.length == q0.piece.length
            &&& q2.piece.line_feed_count == q0.piece.line_feed_count
            &&& q2.left_char_count == q0.left_char_count
            &&& q2.left_line_count == q0.left_line_count
            &&& q2.parent == q0.parent
            &&& q2.right == (if q0.right == Some(idx) { Some(left) } else { q0.right })
            &&& q2.left == (if q0.right == Some(idx) { q0.left } else { Some(left) })
        },
    ensures
        links(nodes2, rotated_right(t.subtree(idx)), p, None),
        rotated_right(t.subtree(idx)).ordered(),
        rotated_right(t.subtree(idx)).root() == Some(left),
        forall|j: usize| rotated_right(t.subtree(idx)).contains(j) <==> t.subtree(idx).contains(j),
        char_sum(nodes2, rotated_right(t.subtree(idx))) == char_sum(nodes0, t.subtree(idx)),
        line_sum(nodes2, rotated_right(t.subtree(idx))) == line_sum(nodes0, t.subtree(idx)),
        forall|j: usize| #[trigger] t.contains(j) && !t.subtree(idx).contains(j) && Some(j) != t.parent_of(idx, None)
            ==> agree_at(nodes0, nodes2, j),
        p matches Some(pp) ==> relinked(nodes0, nodes2, pp, idx, Some(left)),
{
    lemma_subtree(t, idx);
    lemma_subtree_links(nodes0, t, None, None, idx);
    lemma_parent_in(t, idx, None);
    lemma_links_occupied_all(nodes0, t);
    let s = t.subtree(idx);
    crate::shape_facts::lemma_child(t, idx, left, None);
    let lt = s.left_of();
    let c = s.right_of();
    let a = lt.left_of();
    let b = lt.right_of();
    assert(s == Shape::Branch { id: idx, left: Box::new(lt), right: Box::new(c) });
    assert(links(nodes0, s, p, None));
    assert(links(nodes0, lt, Some(idx), None));
    assert(lt == Shape::Branch { id: left, left: Box::new(a), right: Box::new(b) });
    assert(s.ordered());
    assert(lt.ordered());
    assert(br == b.root());
    let n = rotated_right(s);
    let x_sub = Shape::Branch { id: idx, left: Box::new(b), right: Box::new(c) };
    assert(n == Shape::Branch { id: left, left: Box::new(a), right: Box::new(x_sub) });
    assert forall|j: usize| #[trigger] a.contains(j) implies j < left && s.contains(j) by {
        assert(lt.contains(j));
    }
    assert forall|j: usize| #[trigger] b.contains(j) implies left < j < idx && s.contains(j) by {
        assert(lt.contains(j));
    }
    assert forall|j: usize| #[trigger] c.contains(j) implies idx < j && s.contains(j) by {}
    if let Some(pp) = p {
        assert(!s.contains(pp));
    }
    assert forall|j: usize| #[trigger] s.contains(j) implies t.contains(j) by {}
    assert(agree_on(nodes0, nodes2, a)) by {
        assert forall|j: usize| #[trigger] a.contains(j) implies agree_at(nodes0, nodes2, j) by {
            if Some(j) == br {
                assert(b.contains(j));
            }
        }
    }
    lemma_frame(nodes0, nodes2, a, Some(left), None);
    assert(agree_on(nodes0, nodes2, c)) by {
        assert forall|j: usize| #[trigger] c.contains(j) implies agree_at(nodes0, nodes2, j) by {
            if Some(j) == br {
                assert(b.contains(j));
            }
        }
    }
    lemma_frame(nodes0, nodes2, c, Some(idx), None);
    assert(links(nodes0, b, Some(left), None));
    if let Some(bb) = br {
        assert forall|j: usize| #[trigger] b.contains(j) && j != bb implies agree_at(nodes0, nodes2, j) by {}
        assert(b.ordered());
        lemma_reparent(nodes0, nodes2, b, Some(left), Some(idx), None);
        crate::shape_facts::lemma_child(t, left, bb, None);
        assert(t.subtree(bb) == b);
    } else {
        assert(b == Shape::Leaf);
    }
    assert(links(nodes2, a, Some(left), None));
    assert(links(nodes2, b, Some(idx), None));
    assert(links(nodes2, c, Some(idx), None));
    assert(char_sum(nodes2, b) == (match br {
        Some(bb) => char_sum(nodes0, t.subtree(bb)),
        None => 0,
    }));
    assert(line_sum(nodes2, b) == (match br {
        Some(bb) => line_sum(nodes0, t.subtree(bb)),
        None => 0,
    }));
    assert(node_of(nodes2, idx).left_char_count == char_sum(nodes2, b));
    assert(node_of(nodes2, idx).left == b.root());
    assert(node_of(nodes2, idx).right == c.root());
    assert((idx as int) < nodes2.len());
    assert(links(nodes2, x_sub, Some(left), None));
    assert(node_of(nodes2, left).left_char_count == char_sum(nodes2, a));
    assert(node_of(nodes2, left).left == a.root());
    assert(links(nodes2, n, p, None));
    assert forall|j: usize| n.contains(j) <==> s.contains(j) by {
        assert(x_sub.contains(j) == (j == idx || b.contains(j) || c.contains(j)));
        assert(lt.contains(j) == (j == left || a.contains(j) || b.contains(j)));
    }
    assert(x_sub.ordered());
    assert forall|j: usize| x_sub.contains(j) implies j > left by {
        assert(x_sub.contains(j) == (j == idx || b.contains(j) || c.contains(j)));
    }
    assert forall|j: usize| a.contains(j) implies j < left by {}
    assert(n.ordered());
    assert(char_sum(nodes2, n) == char_sum(nodes2, a) + node_of(nodes2, left).piece.length + char_sum(nodes2, x_sub));
    assert(char_sum(nodes2, x_sub) == char_sum(nodes2, b) + node_of(nodes2, idx).piece.length + char_sum(nodes2, c));
    assert(char_sum(nodes0, s) == char_sum(nodes0, lt) + node_of(nodes0, idx).piece.length + char_sum(nodes0, c));
    assert(char_sum(nodes0, lt) == char_sum(nodes0, a) + node_of(nodes0, left).piece.length + char_sum(nodes0, b));
    assert(line_sum(nodes2, n) == line_sum(nodes2, a) + node_of(nodes2, left).piece.line_feed_count + line_sum(nodes2, x_sub));
    assert(line_sum(nodes2, x_sub) == line_sum(nodes2, b) + node_of(nodes2, idx).piece.line_feed_count + line_sum(nodes2, c));
    assert(line_sum(nodes0, s) == line_sum(nodes0, lt) + node_of(nodes0, idx).piece.line_feed_count + line_sum(nodes0, c));
    assert(line_sum(nodes0, lt) == line_sum(nodes0, a) + node_of(nodes0, left).piece.line_feed_count + line_sum(nodes0, b));
    assert forall|j: usize| #[trigger] t.contains(j) && !t.subtree(idx).contains(j) && Some(j) != t.parent_of(idx, None)
        implies agree_at(nodes0, nodes2, j) by {
        if Some(j) == br {
            assert(b.contains(j));
        }
    }
    if let Some(pp) = p {
        lemma_parent_child(t, idx, None);
        lemma_subtree_links(nodes0, t, None, None, pp);
        lemma_subtree(t, pp);
        if idx > pp {
            assert(node_of(nodes0, pp).right == Some(idx));
        } else {
            assert(node_of(nodes0, pp).left == Some(idx));
            let sp = t.subtree(pp);
            if let Shape::Branch { id: spid, left: spl, right: spr } = sp {
                if spr.root() == Some(idx) {
                    assert(spr.contains(idx));
                    assert(sp.ordered());
                }
            }
            assert(node_of(nodes0, pp).right != Some(idx));
        }
        assert(relinked(nodes0, nodes2, pp, idx, Some(left)));
    }
}

impl PieceTree {
    /// Sets the color of the node in slot `idx`.
    pub(crate) fn paint(&mut self, idx: usize, color: Color, Ghost(extra): Ghost<Option<usize>>)
        requires
            old(self).shaped(None, extra),
            old(self).occupied(idx),
        ensures
            final(self).shaped(None, extra),
            same_but_colors(*old(self), *final(self)),
            final(self).node(idx).color == color,
            final(self).node(idx) == (Node { color: color, ..old(self).node(idx) }),
            final(self).occupied(idx),
            forall|j: int| 0 <= j < old(self).nodes().len() && j != idx ==> final(self).nodes()[j] == old(self).nodes()[j],
            char_sum(final(self).nodes(), final(self).shape@) == char_sum(old(self).nodes(), old(self).shape@),
            line_sum(final(self).nodes(), final(self).shape@) == line_sum(old(self).nodes(), old(self).shape@),
    {
        proof {
            reveal(PieceTree::shaped);
        }
        self.arena.get_mut(idx).color = color;
        proof {
            assert(same_but_colors(*old(self), *self));
            lemma_shaped_colors(*old(self), *self, None, extra);
        }
    }

    /// The byte and line feed totals of the subtree rooted at slot `idx`: the sum, down its
    /// right spine, of each node's left totals and piece.
    pub(crate) fn subtree_counts(&self, idx: usize, Ghost(stale): Ghost<Option<usize>>, Ghost(extra): Ghost<Option<usize>>) -> (r: (usize, usize))
        requires
            self.shaped(stale, extra),
            self.shape@.contains(idx),
            stale matches Some(s) ==> (s == idx || !self.shape@.subtree(idx).contains(s)),
        ensures
            r.0 == char_sum(self.nodes(), self.shape@.subtree(idx)),
            r.1 == line_sum(self.nodes(), self.shape@.subtree(idx)),
    {
        let ghost nodes = self.nodes();
        let ghost t = self.shape@.subtree(idx);
        proof {
            reveal(PieceTree::shaped);
            lemma_subtree(self.shape@, idx);
            lemma_subtree_links(nodes, self.shape@, None, stale, idx);
            if let Some(s) = stale {
                lemma_unstale(nodes, t, self.shape@.parent_of(idx, None), s);
            }
            lemma_subtree_sums(nodes, self.shape@, idx);
        }
        let mut char_count: usize = 0;
        let mut line_count: usize = 0;
        let mut current: Option<usize> = Some(idx);
        let ghost mut g = t;
        let ghost mut gpar = self.shape@.parent_of(idx, None);
        while current.is_some()
            invariant
                current == g.root(),
                g.ordered(),
                links(nodes, g, gpar, None),
                nodes == self.nodes(),
                char_count + char_sum(nodes, g) == char_sum(nodes, t),
                line_count + line_sum(nodes, g) == line_sum(nodes, t),
                char_sum(nodes, t) <= usize::MAX,
                line_sum(nodes, t) <= usize::MAX,
            decreases g.size(),
        {
            let c = current.unwrap();
            let node = self.arena.get(c);
            char_count = char_count + node.left_char_count + node.piece.length;
            line_count = line_count + node.left_line_count + node.piece.line_feed_count;
            current = node.right;
            proof {
                gpar = Some(c);
                g = g.right_of();
            }
        }
        (char_count, line_count)
    }

    /// Rotates left at `idx`: its right child takes its place and `idx` becomes that
    /// child's left child.
    pub(crate) fn rotate_left(&mut self, idx: usize, Ghost(extra): Ghost<Option<usize>>)
        requires
            old(self).shaped(None, extra),
            old(self).shape@.contains(idx),
            old(self).node(idx).right is Some,
        ensures
            final(self).shaped(None, extra),
            final(self).shape@ == old(self).shape@.replace(idx, rotated_left(old(self).shape@.subtree(idx))),
            forall|j: usize| #[trigger] final(self).shape@.contains(j) == old(self).shape@.contains(j),
            same_payload(*old(self), *final(self)),
            final(self).doc() == old(self).doc(),
            same_colors(*old(self), *final(self)),
            forall|j: int| 0 <= j < old(self).nodes().len() && !old(self).shape@.contains(j as usize)
                ==> final(self).nodes()[j] == old(self).nodes()[j],
            char_sum(final(self).nodes(), final(self).shape@) == char_sum(old(self).nodes(), old(self).shape@),
            line_sum(final(self).nodes(), final(self).shape@) == line_sum(old(self).nodes(), old(self).shape@),
            forall|j: usize| #[trigger] old(self).occupied(j) && j != idx && Some(j) != old(self).node(idx).right
                && Some(j) != old(self).node(old(self).node(idx).right.unwrap()).left && Some(j) != old(self).node(idx).parent
                ==> final(self).node(j) == old(self).node(j),
            ({
                let r = old(self).node(idx).right.unwrap();
                &&& final(self).node(r).parent == old(self).node(idx).parent
                &&& final(self).node(r).left == Some(idx)
                &&& final(self).node(idx).parent == Some(r)
                &&& final(self).node(idx).right == old(self).node(r).left
                &&& final(self).node(idx).left == old(self).node(idx).left
                &&& old(self).node(r).left matches Some(b) ==> final(self).node(b).parent == Some(idx)
                &&& old(self).node(idx).parent matches Some(p) ==> {
                    &&& final(self).node(p).parent == old(self).node(p).parent
                    &&& final(self).node(p).left == (if old(self).node(p).left == Some(idx) { Some(r) } else { old(self).node(p).left })
                    &&& final(self).node(p).right == (if old(self).node(p).left == Some(idx) { old(self).node(p).right } else { Some(r) })
                }
            }),
    {
        let ghost t = self.shape@;
        let ghost nodes0 = self.nodes();
        proof {
            self.lemma_shaped_basics(None, extra);
        }
        let right = self.arena.get(idx).right.unwrap();
        proof {
            lemma_rotl_facts(nodes0, t, idx, right, extra, *old(self));
        }
        let right_left = self.arena.get(right).left;
        let idx_parent = self.arena.get(idx).parent;
        // totals of the subtree that changes sides
        let (b_char, b_line) = match right_left {
            Some(bb) => self.subtree_counts(bb, Ghost(None), Ghost(extra)),
            None => (0, 0),
        };

        // right's new left subtree is idx with its left subtree and the moved subtree
        let idx_left_char = self.arena.get(idx).left_char_count;
        let idx_left_line = self.arena.get(idx).left_line_count;
        let right_left_char = idx_left_char + self.arena.get(idx).piece.length + b_char;
        let right_left_line = idx_left_line + self.arena.get(idx).piece.line_feed_count + b_line;

        // right's left child moves to idx's right; idx becomes right's left child
        {
            let node = self.arena.get_mut(idx);
            node.right = right_left;
            node.parent = Some(right);
        }
        if let Some(right_left_idx) = right_left {
            self.arena.get_mut(right_left_idx).parent = Some(idx);
        }

        // right takes idx's place in the tree
        match idx_parent {
            None => self.root = Some(right),
            Some(parent) => {
                if self.arena.get(parent).left == Some(idx) {
                    self.arena.get_mut(parent).left = Some(right);
                } else {
                    self.arena.get_mut(parent).right = Some(right);
                }
            },
        }
        {
            let node = self.arena.get_mut(right);
            node.parent = idx_parent;
            node.left = Some(idx);
            node.left_char_count = right_left_char;
            node.left_line_count = right_left_line;
        }

        proof {
            let nodes2 = self.nodes();
            let p = idx_parent;
            assert(nodes2.len() == nodes0.len());
            assert forall|j: int| 0 <= j < nodes0.len() && j != idx && j != right && Some(j as usize) != right_left
                && Some(j as usize) != p implies nodes2[j] == nodes0[j] by {}
            assert(written_keeps_payload(nodes0, nodes2, idx));
            assert(written_keeps_payload(nodes0, nodes2, right));
            if let Some(bb) = right_left {
                assert(written_keeps_payload(nodes0, nodes2, bb));
            }
            if let Some(pp) = p {
                assert(written_keeps_payload(nodes0, nodes2, pp));
            }
            lemma_writes_keep_payload(*old(self), *self, idx, right, right_left, p);
            lemma_rotl_links(nodes0, nodes2, t, idx, right, right_left, p);
            let n = rotated_left(t.subtree(idx));
            self.shape = Ghost(t.replace(idx, n));
            lemma_relink_done(*old(self), *self, idx, n, extra);
        }
        proof {
            crate::edit::lemma_payload_texts(*old(self), *self);
        }
    }

    /// Rotates right at `idx`: its left child takes its place and `idx` becomes that
    /// child's right child.
    pub(crate) fn rotate_right(&mut self, idx: usize, Ghost(extra): Ghost<Option<usize>>)
        requires
            old(self).shaped(None, extra),
            old(self).shape@.contains(idx),
            old(self).node(idx).left is Some,
        ensures
            final(self).shaped(None, extra),
            final(self).shape@ == old(self).shape@.replace(idx, rotated_right(old(self).shape@.subtree(idx))),
            forall|j: usize| #[trigger] final(self).shape@.contains(j) == old(self).shape@.contains(j),
            same_payload(*old(self), *final(self)),
            final(self).doc() == old(self).doc(),
            same_colors(*old(self), *final(self)),
            forall|j: int| 0 <= j < old(self).nodes().len() && !old(self).shape@.contains(j as usize)
                ==> final(self).nodes()[j] == old(self).nodes()[j],
            char_sum(final(self).nodes(), final(self).shape@) == char_sum(old(self).nodes(), old(self).shape@),
            line_sum(final(self).nodes(), final(self).shape@) == line_sum(old(self).nodes(), old(self).shape@),
            forall|j: usize| #[trigger] old(self).occupied(j) && j != idx && Some(j) != old(self).node(idx).left
                && Some(j) != old(self).node(old(self).node(idx).left.unwrap()).right && Some(j) != old(self).node(idx).parent
                ==> final(self).node(j) == old(self).node(j),
            ({
                let l = old(self).node(idx).left.unwrap();
                &&& final(self).node(l).parent == old(self).node(idx).parent
                &&& final(self).node(l).right == Some(idx)
                &&& final(self).node(idx).parent == Some(l)
                &&& final(self).node(idx).left == old(self).node(l).right
                &&& final(self).node(idx).right == old(self).node(idx).right
                &&& old(self).node(l).right matches Some(b) ==> final(self).node(b).parent == Some(idx)
                &&& old(self).node(idx).parent matches Some(p) ==> {
                    &&& final(self).node(p).parent == old(self).node(p).parent
                    &&& final(self).node(p).right == (if old(self).node(p).right == Some(idx) { Some(l) } else { old(self).node(p).right })
                    &&& final(self).node(p).left == (if old(self).node(p).right == Some(idx) { old(self).node(p).left } else { Some(l) })
                }
            }),
    {
        let ghost t = self.shape@;
        let ghost nodes0 = self.nodes();
        proof {
            self.lemma_shaped_basics(None, extra);
        }
        let left = self.arena.get(idx).left.unwrap();
        proof {
            lemma_rotr_facts(nodes0, t, idx, left, extra, *old(self));
        }
        let left_right = self.arena.get(left).right;
        let idx_parent = self.arena.get(idx).parent;
        // totals of the subtree that changes sides
        let (b_char, b_line) = match left_right {
            Some(bb) => self.subtree_counts(bb, Ghost(None), Ghost(extra)),
            None => (0, 0),
        };

        // left's right child moves to idx's left; idx becomes left's right child, and its
        // new left subtree is exactly the moved one
        {
            let node = self.arena.get_mut(idx);
            node.left = left_right;
            node.parent = Some(left);
            node.left_char_count = b_char;
            node.left_line_count = b_line;
        }
        if let Some(left_right_idx) = left_right {
            self.arena.get_mut(left_right_idx).parent = Some(idx);
        }

        // left takes idx's place in the tree
        match idx_parent {
            None => self.root = Some(left),
            Some(parent) => {
                if self.arena.get(parent).right == Some(idx) {
                    self.arena.get_mut(parent).right = Some(left);
                } else {
                    self.arena.get_mut(parent).left = Some(left);
                }
            },
        }
        // left's left subtree is unchanged, so its totals stay the same
        {
            let node = self.arena.get_mut(left);
            node.parent = idx_parent;
            node.right = Some(idx);
        }

        proof {
            let nodes2 = self.nodes();
            let p = idx_parent;
            assert(nodes2.len() == nodes0.len());
            assert forall|j: int| 0 <= j < nodes0.len() && j != idx && j != left && Some(j as usize) != left_right
                && Some(j as usize) != p implies nodes2[j] == nodes0[j] by {}
            assert(written_keeps_payload(nodes0, nodes2, idx));
            assert(written_keeps_payload(nodes0, nodes2, left));
            if let Some(bb) = left_right {
                assert(written_keeps_payload(nodes0, nodes2, bb));
            }
            if let Some(pp) = p {
                assert(written_keeps_payload(nodes0, nodes2, pp));
            }
            lemma_writes_keep_payload(*old(self), *self, idx, left, left_right, p);
            lemma_rotr_links(nodes0, nodes2, t, idx, left, left_right, p);
            let n = rotated_right(t.subtree(idx));
            self.shape = Ghost(t.replace(idx, n));
            lemma_relink_done(*old(self), *self, idx, n, extra);
        }
        proof {
            crate::edit::lemma_payload_texts(*old(self), *self);
        }
    }

}

} // verus!
