use vstd::prelude::*;
use crate::arena::Node;
use crate::lines::{lemma_newline_count_concat, newline_count};
use crate::piece::{piece_text, piece_wf, BufferKind};
use crate::shape::{char_sum, line_sum, links, node_of, Shape};

verus! {

/// The bytes of the buffer a piece of the given kind points into.
pub open spec fn buffer_for(kind: BufferKind, ob: Seq<u8>, ab: Seq<u8>) -> Seq<u8> {
    match kind {
        BufferKind::Original => ob,
        BufferKind::Add => ab,
    }
}

/// The text of slot `i`: the bytes of its piece, or nothing for an empty slot.
pub open spec fn slot_text(nodes: Seq<Option<Node>>, ob: Seq<u8>, ab: Seq<u8>, i: int) -> Seq<u8> {
    if 0 <= i < nodes.len() && nodes[i] is Some {
        let p = nodes[i].unwrap().piece;
        piece_text(p, buffer_for(p.buffer_kind, ob, ab))
    } else {
        Seq::empty()
    }
}

/// The byte length of the piece in slot `i`, or 0 for an empty slot.
pub open spec fn slot_len(nodes: Seq<Option<Node>>, i: int) -> nat {
    if 0 <= i < nodes.len() && nodes[i] is Some {
        nodes[i].unwrap().piece.length as nat
    } else {
        0
    }
}

/// The line feed count of the piece in slot `i`, or 0 for an empty slot.
pub open spec fn slot_lines(nodes: Seq<Option<Node>>, i: int) -> nat {
    if 0 <= i < nodes.len() && nodes[i] is Some {
        nodes[i].unwrap().piece.line_feed_count as nat
    } else {
        0
    }
}

/// The texts of the slots `lo..hi`, in slot order.
pub open spec fn span_text(nodes: Seq<Option<Node>>, ob: Seq<u8>, ab: Seq<u8>, lo: int, hi: int) -> Seq<u8>
    decreases hi - lo,
{
    if hi <= lo {
        Seq::empty()
    } else {
        span_text(nodes, ob, ab, lo, hi - 1) + slot_text(nodes, ob, ab, hi - 1)
    }
}

/// The byte lengths of the slots `lo..hi`, summed.
pub open spec fn span_len(nodes: Seq<Option<Node>>, lo: int, hi: int) -> nat
    decreases hi - lo,
{
    if hi <= lo {
        0
    } else {
        span_len(nodes, lo, hi - 1) + slot_len(nodes, hi - 1)
    }
}

/// The line feed counts of the slots `lo..hi`, summed.
pub open spec fn span_lines(nodes: Seq<Option<Node>>, lo: int, hi: int) -> nat
    decreases hi - lo,
{
    if hi <= lo {
        0
    } else {
        span_lines(nodes, lo, hi - 1) + slot_lines(nodes, hi - 1)
    }
}

/// The texts of the nodes of a subtree, in tree order.
pub open spec fn tree_text(nodes: Seq<Option<Node>>, ob: Seq<u8>, ab: Seq<u8>, t: Shape) -> Seq<u8>
    decreases t,
{
    match t {
        Shape::Leaf => Seq::empty(),
        Shape::Branch { id, left, right } => tree_text(nodes, ob, ab, *left) + slot_text(nodes, ob, ab, id as int)
            + tree_text(nodes, ob, ab, *right),
    }
}

/// Every occupied slot holds a piece that is well formed in its buffer.
pub open spec fn pieces_ok(nodes: Seq<Option<Node>>, ob: Seq<u8>, ab: Seq<u8>) -> bool {
    forall|i: int| 0 <= i < nodes.len() && #[trigger] nodes[i] is Some ==> piece_wf(
        nodes[i].unwrap().piece,
        buffer_for(nodes[i].unwrap().piece.buffer_kind, ob, ab),
    )
}

/// Spans split at any point in between.
pub proof fn lemma_span_split(nodes: Seq<Option<Node>>, ob: Seq<u8>, ab: Seq<u8>, lo: int, mid: int, hi: int)
    requires
        lo <= mid <= hi,
    ensures
        span_text(nodes, ob, ab, lo, hi) == span_text(nodes, ob, ab, lo, mid) + span_text(nodes, ob, ab, mid, hi),
        span_len(nodes, lo, hi) == span_len(nodes, lo, mid) + span_len(nodes, mid, hi),
        span_lines(nodes, lo, hi) == span_lines(nodes, lo, mid) + span_lines(nodes, mid, hi),
    decreases hi - mid,
{
    if hi == mid {
        assert(span_text(nodes, ob, ab, lo, mid) + span_text(nodes, ob, ab, mid, hi) =~= span_text(nodes, ob, ab, lo, hi));
    } else {
        lemma_span_split(nodes, ob, ab, lo, mid, hi - 1);
        assert(span_text(nodes, ob, ab, lo, mid) + span_text(nodes, ob, ab, mid, hi) =~= span_text(nodes, ob, ab, lo, mid)
            + span_text(nodes, ob, ab, mid, hi - 1) + slot_text(nodes, ob, ab, hi - 1));
    }
}

/// A span of empty slots is empty.
pub proof fn lemma_span_empty(nodes: Seq<Option<Node>>, ob: Seq<u8>, ab: Seq<u8>, lo: int, hi: int)
    requires
        forall|j: int| lo <= j < hi ==> !(0 <= j < nodes.len() && #[trigger] nodes[j] is Some),
    ensures
        span_text(nodes, ob, ab, lo, hi) == Seq::<u8>::empty(),
        span_len(nodes, lo, hi) == 0,
        span_lines(nodes, lo, hi) == 0,
    decreases hi - lo,
{
    if hi > lo {
        lemma_span_empty(nodes, ob, ab, lo, hi - 1);
        assert(!(0 <= hi - 1 < nodes.len() && nodes[hi - 1] is Some));
    }
}

/// A span of one slot is the slot.
pub proof fn lemma_span_single(nodes: Seq<Option<Node>>, ob: Seq<u8>, ab: Seq<u8>, i: int)
    ensures
        span_text(nodes, ob, ab, i, i + 1) == slot_text(nodes, ob, ab, i),
        span_len(nodes, i, i + 1) == slot_len(nodes, i),
        span_lines(nodes, i, i + 1) == slot_lines(nodes, i),
{
    assert(span_text(nodes, ob, ab, i, i) == Seq::<u8>::empty());
    assert(span_len(nodes, i, i) == 0);
    assert(span_lines(nodes, i, i) == 0);
    assert(Seq::<u8>::empty() + slot_text(nodes, ob, ab, i) =~= slot_text(nodes, ob, ab, i));
}

/// An ordered subtree whose slots are exactly the occupied slots of `lo..hi` reads, in tree
/// order, as that span in slot order.
pub proof fn lemma_tree_is_span(
    nodes: Seq<Option<Node>>,
    ob: Seq<u8>,
    ab: Seq<u8>,
    t: Shape,
    par: Option<usize>,
    stale: Option<usize>,
    lo: int,
    hi: int,
)
    requires
        t.ordered(),
        links(nodes, t, par, stale),
        nodes.len() <= usize::MAX,
        lo <= hi,
        forall|j: usize| #[trigger] t.contains(j) ==> lo <= j < hi,
        forall|j: int| lo <= j < hi && 0 <= j < nodes.len() && #[trigger] nodes[j] is Some ==> t.contains(j as usize),
    ensures
        tree_text(nodes, ob, ab, t) == span_text(nodes, ob, ab, lo, hi),
        char_sum(nodes, t) == span_len(nodes, lo, hi),
        line_sum(nodes, t) == span_lines(nodes, lo, hi),
    decreases t,
{
    match t {
        Shape::Leaf => {
            assert forall|j: int| lo <= j < hi implies !(0 <= j < nodes.len() && #[trigger] nodes[j] is Some) by {
                if 0 <= j < nodes.len() && nodes[j] is Some {
                    assert(t.contains(j as usize));
                }
            }
            lemma_span_empty(nodes, ob, ab, lo, hi);
        },
        Shape::Branch { id, left, right } => {
            assert(t.contains(id));
            let m = id as int;
            assert forall|j: int| lo <= j < m && 0 <= j < nodes.len() && #[trigger] nodes[j] is Some implies left.contains(
                j as usize,
            ) by {
                assert(t.contains(j as usize));
                if right.contains(j as usize) {
                    assert(j > id);
                }
            }
            assert forall|j: int| m + 1 <= j < hi && 0 <= j < nodes.len() && #[trigger] nodes[j] is Some implies right.contains(
                j as usize,
            ) by {
                assert(t.contains(j as usize));
                if left.contains(j as usize) {
                    assert(j < id);
                }
            }
            assert forall|j: usize| #[trigger] left.contains(j) implies lo <= j < m by {
                assert(t.contains(j));
            }
            assert forall|j: usize| #[trigger] right.contains(j) implies m + 1 <= j < hi by {
                assert(t.contains(j));
            }
            lemma_tree_is_span(nodes, ob, ab, *left, Some(id), stale, lo, m);
            lemma_tree_is_span(nodes, ob, ab, *right, Some(id), stale, m + 1, hi);
            lemma_span_split(nodes, ob, ab, lo, m, hi);
            lemma_span_split(nodes, ob, ab, m, m + 1, hi);
            lemma_span_single(nodes, ob, ab, m);
            assert(tree_text(nodes, ob, ab, t) =~= span_text(nodes, ob, ab, lo, m) + (span_text(nodes, ob, ab, m, m + 1)
                + span_text(nodes, ob, ab, m + 1, hi)));
        },
    }
}

/// The text of a slot with a well formed piece has the piece's length and line feed count.
pub proof fn lemma_slot_text_shape(nodes: Seq<Option<Node>>, ob: Seq<u8>, ab: Seq<u8>, i: int)
    requires
        pieces_ok(nodes, ob, ab),
    ensures
        slot_text(nodes, ob, ab, i).len() == slot_len(nodes, i),
        newline_count(slot_text(nodes, ob, ab, i)) == slot_lines(nodes, i),
{
    if 0 <= i < nodes.len() && nodes[i] is Some {
        let p = nodes[i].unwrap().piece;
        assert(piece_wf(p, buffer_for(p.buffer_kind, ob, ab)));
    }
}

/// The text of a span has the summed length and line feed count of its slots.
pub proof fn lemma_span_text_shape(nodes: Seq<Option<Node>>, ob: Seq<u8>, ab: Seq<u8>, lo: int, hi: int)
    requires
        pieces_ok(nodes, ob, ab),
    ensures
        span_text(nodes, ob, ab, lo, hi).len() == span_len(nodes, lo, hi),
        newline_count(span_text(nodes, ob, ab, lo, hi)) == span_lines(nodes, lo, hi),
    decreases hi - lo,
{
    if hi > lo {
        lemma_span_text_shape(nodes, ob, ab, lo, hi - 1);
        lemma_slot_text_shape(nodes, ob, ab, hi - 1);
        lemma_newline_count_concat(span_text(nodes, ob, ab, lo, hi - 1), slot_text(nodes, ob, ab, hi - 1));
    }
}

/// Spans only depend on the slots they cover.
pub proof fn lemma_span_frame(
    nodes: Seq<Option<Node>>,
    nodes2: Seq<Option<Node>>,
    ob: Seq<u8>,
    ab: Seq<u8>,
    ob2: Seq<u8>,
    ab2: Seq<u8>,
    lo: int,
    hi: int,
)
    requires
        forall|j: int| lo <= j < hi ==> #[trigger] slot_text(nodes, ob, ab, j) == slot_text(nodes2, ob2, ab2, j)
            && slot_len(nodes, j) == slot_len(nodes2, j) && slot_lines(nodes, j) == slot_lines(nodes2, j),
    ensures
        span_text(nodes, ob, ab, lo, hi) == span_text(nodes2, ob2, ab2, lo, hi),
        span_len(nodes, lo, hi) == span_len(nodes2, lo, hi),
        span_lines(nodes, lo, hi) == span_lines(nodes2, lo, hi),
    decreases hi - lo,
{
    if hi > lo {
        lemma_span_frame(nodes, nodes2, ob, ab, ob2, ab2, lo, hi - 1);
        assert(slot_text(nodes, ob, ab, hi - 1) == slot_text(nodes2, ob2, ab2, hi - 1));
    }
}

} // verus!

verus! {

/// The first slot from `i` on whose end lies beyond byte `off` of the document (or the
/// number of slots, if none does).
pub open spec fn slot_of(nodes: Seq<Option<Node>>, off: int, i: int) -> int
    decreases nodes.len() - i,
{
    if i >= nodes.len() {
        i
    } else if span_len(nodes, 0, i + 1) > off {
        i
    } else {
        slot_of(nodes, off, i + 1)
    }
}

/// Span lengths grow with their end.
pub proof fn lemma_span_len_mono(nodes: Seq<Option<Node>>, lo: int, a: int, b: int)
    requires
        lo <= a <= b,
    ensures
        span_len(nodes, lo, a) <= span_len(nodes, lo, b),
    decreases b - a,
{
    if a < b {
        lemma_span_len_mono(nodes, lo, a, b - 1);
    }
}

/// The slot whose bytes hold `off` is the one `slot_of` finds.
pub proof fn lemma_slot_of_unique(nodes: Seq<Option<Node>>, off: int, k: int, i: int)
    requires
        0 <= i <= k < nodes.len(),
        span_len(nodes, 0, k) <= off < span_len(nodes, 0, k + 1),
    ensures
        slot_of(nodes, off, i) == k,
    decreases k - i,
{
    if i < k {
        lemma_span_len_mono(nodes, 0, i + 1, k);
        lemma_slot_of_unique(nodes, off, k, i + 1);
    }
}

/// The texts of the slots, slot by slot.
pub open spec fn slot_texts(nodes: Seq<Option<Node>>, ob: Seq<u8>, ab: Seq<u8>) -> Seq<Seq<u8>> {
    Seq::new(nodes.len(), |i: int| slot_text(nodes, ob, ab, i))
}

/// The concatenation of a sequence of byte strings.
pub open spec fn joined(ts: Seq<Seq<u8>>) -> Seq<u8>
    decreases ts.len(),
{
    if ts.len() == 0 {
        Seq::empty()
    } else {
        joined(ts.drop_last()) + ts.last()
    }
}

/// The document is the concatenation of the slot texts.
pub proof fn lemma_joined_span(nodes: Seq<Option<Node>>, ob: Seq<u8>, ab: Seq<u8>, n: int)
    requires
        0 <= n <= nodes.len(),
    ensures
        joined(slot_texts(nodes, ob, ab).take(n)) == span_text(nodes, ob, ab, 0, n),
    decreases n,
{
    let ts = slot_texts(nodes, ob, ab);
    if n > 0 {
        lemma_joined_span(nodes, ob, ab, n - 1);
        assert(ts.take(n).drop_last() =~= ts.take(n - 1));
    } else {
        assert(ts.take(0).len() == 0);
    }
}

} // verus!

verus! {

/// Joining distributes over concatenation.
pub proof fn lemma_joined_append(a: Seq<Seq<u8>>, b: Seq<Seq<u8>>)
    ensures
        joined(a + b) == joined(a) + joined(b),
    decreases b.len(),
{
    if b.len() == 0 {
        assert(a + b =~= a);
        assert(joined(a) + joined(b) =~= joined(a));
    } else {
        lemma_joined_append(a, b.drop_last());
        assert((a + b).drop_last() =~= a + b.drop_last());
        assert((a + b).last() == b.last());
        assert(joined(a) + joined(b) =~= joined(a) + joined(b.drop_last()) + b.last());
    }
}

/// Joining empty texts gives nothing.
pub proof fn lemma_joined_empties(ts: Seq<Seq<u8>>)
    requires
        forall|m: int| 0 <= m < ts.len() ==> #[trigger] ts[m].len() == 0,
    ensures
        joined(ts) == Seq::<u8>::empty(),
    decreases ts.len(),
{
    if ts.len() > 0 {
        lemma_joined_empties(ts.drop_last());
        assert(ts.last().len() == 0);
        assert(joined(ts.drop_last()) + ts.last() =~= Seq::<u8>::empty());
    }
}

/// The document is the same whether a text sits at slot `i` or at slot `j`, when only
/// empty slots lie between.
pub proof fn lemma_joined_move(ts: Seq<Seq<u8>>, i: int, j: int)
    requires
        0 <= i < j < ts.len(),
        forall|m: int| i < m < j ==> #[trigger] ts[m].len() == 0,
    ensures
        joined(ts.update(j, Seq::empty()).update(i, ts[j])) == joined(ts.update(i, Seq::empty())),
{
    let e = Seq::<u8>::empty();
    let x = ts[j];
    let p = ts.take(i);
    let m = ts.subrange(i + 1, j);
    let s = ts.skip(j + 1);
    let t1 = ts.update(j, e).update(i, x);
    let t2 = ts.update(i, e);
    assert(t1 =~= p + seq![x] + m + seq![e] + s);
    assert(t2 =~= p + seq![e] + m + seq![x] + s);
    lemma_joined_empties(m);
    assert forall|q: int| 0 <= q < 1 implies #[trigger] seq![e][q].len() == 0 by {}
    lemma_joined_empties(seq![e]);
    assert(joined(seq![x]) =~= x) by {
        assert(seq![x].drop_last() =~= Seq::<Seq<u8>>::empty());
        assert(joined(Seq::<Seq<u8>>::empty()) + x =~= x);
    }
    lemma_joined_append(p + seq![x] + m + seq![e], s);
    lemma_joined_append(p + seq![x] + m, seq![e]);
    lemma_joined_append(p + seq![x], m);
    lemma_joined_append(p, seq![x]);
    lemma_joined_append(p + seq![e] + m + seq![x], s);
    lemma_joined_append(p + seq![e] + m, seq![x]);
    lemma_joined_append(p + seq![e], m);
    lemma_joined_append(p, seq![e]);
    assert(joined(t1) =~= joined(p) + x + joined(s));
    assert(joined(t2) =~= joined(p) + x + joined(s));
}

} // verus!

verus! {

/// Cutting bytes `l..m` out of slot `k` cuts the same bytes out of the document, counted from
/// where slot `k` starts in it.
pub proof fn lemma_cut_range(ts: Seq<Seq<u8>>, k: int, l: int, m: int)
    requires
        0 <= k < ts.len(),
        0 <= l <= m <= ts[k].len(),
    ensures
        joined(ts.update(k, ts[k].take(l) + ts[k].skip(m))) == joined(ts).take(joined(ts.take(k)).len() + l)
            + joined(ts).skip(joined(ts.take(k)).len() + m),
{
    let x = ts[k];
    let y = x.take(l) + x.skip(m);
    let p = ts.take(k);
    let s = ts.skip(k + 1);
    assert(ts =~= p + seq![x] + s);
    assert(ts.update(k, y) =~= p + seq![y] + s);
    assert(joined(seq![x]) =~= x) by {
        assert(seq![x].drop_last() =~= Seq::<Seq<u8>>::empty());
        assert(joined(Seq::<Seq<u8>>::empty()) + x =~= x);
    }
    assert(joined(seq![y]) =~= y) by {
        assert(seq![y].drop_last() =~= Seq::<Seq<u8>>::empty());
        assert(joined(Seq::<Seq<u8>>::empty()) + y =~= y);
    }
    lemma_joined_append(p + seq![x], s);
    lemma_joined_append(p, seq![x]);
    lemma_joined_append(p + seq![y], s);
    lemma_joined_append(p, seq![y]);
    let jp = joined(p);
    let js = joined(s);
    assert(joined(ts) == jp + x + js);
    assert(joined(ts.update(k, y)) == jp + y + js);
    assert(joined(ts).take(jp.len() + l) =~= jp + x.take(l));
    assert(joined(ts).skip(jp.len() + m) =~= x.skip(m) + js);
    assert(jp + y + js =~= (jp + x.take(l)) + (x.skip(m) + js));
}

/// The bytes of the slots before `k` are as many as the span before `k` says.
pub proof fn lemma_texts_prefix(nodes: Seq<Option<Node>>, ob: Seq<u8>, ab: Seq<u8>, k: int)
    requires
        pieces_ok(nodes, ob, ab),
        0 <= k <= nodes.len(),
    ensures
        joined(slot_texts(nodes, ob, ab).take(k)) == span_text(nodes, ob, ab, 0, k),
        joined(slot_texts(nodes, ob, ab).take(k)).len() == span_len(nodes, 0, k),
{
    lemma_joined_span(nodes, ob, ab, k);
    lemma_span_text_shape(nodes, ob, ab, 0, k);
}


/// Joining splits at any index.
pub proof fn lemma_joined_split(ts: Seq<Seq<u8>>, k: int)
    requires
        0 <= k <= ts.len(),
    ensures
        joined(ts) == joined(ts.take(k)) + joined(ts.skip(k)),
{
    assert(ts =~= ts.take(k) + ts.skip(k));
    lemma_joined_append(ts.take(k), ts.skip(k));
}

/// Joining one text gives that text.
pub proof fn lemma_joined_single(x: Seq<u8>)
    ensures
        joined(seq![x]) == x,
{
    reveal_with_fuel(joined, 2);
    assert(seq![x].drop_last() =~= Seq::<Seq<u8>>::empty());
    assert(joined(seq![x]) =~= x);
}

/// Joining a sequence with one more text put in at index `k`.
pub proof fn lemma_joined_insert(ts: Seq<Seq<u8>>, k: int, x: Seq<u8>)
    requires
        0 <= k <= ts.len(),
    ensures
        joined(ts.insert(k, x)) == joined(ts.take(k)) + x + joined(ts.skip(k)),
{
    assert(ts.insert(k, x) =~= ts.take(k) + seq![x] + ts.skip(k));
    lemma_joined_append(ts.take(k) + seq![x], ts.skip(k));
    lemma_joined_append(ts.take(k), seq![x]);
    lemma_joined_single(x);
}

/// Cutting the concatenation at a byte that lies `l` bytes into text `k`.
pub proof fn lemma_joined_cut(ts: Seq<Seq<u8>>, k: int, l: int, off: int)
    requires
        0 <= k < ts.len(),
        0 <= l <= ts[k].len(),
        joined(ts.take(k)).len() + l == off,
    ensures
        joined(ts).take(off) == joined(ts.take(k)) + ts[k].take(l),
        joined(ts).skip(off) == ts[k].skip(l) + joined(ts.skip(k + 1)),
{
    assert(ts =~= ts.take(k) + seq![ts[k]] + ts.skip(k + 1));
    lemma_joined_append(ts.take(k) + seq![ts[k]], ts.skip(k + 1));
    lemma_joined_append(ts.take(k), seq![ts[k]]);
    lemma_joined_single(ts[k]);
    let j = joined(ts);
    assert(j == joined(ts.take(k)) + ts[k] + joined(ts.skip(k + 1)));
    assert(j.take(off) =~= joined(ts.take(k)) + ts[k].take(l));
    assert(j.skip(off) =~= ts[k].skip(l) + joined(ts.skip(k + 1)));
}

/// A text put in just before text `k`, which starts at byte `off`, lands at `off`.
pub proof fn lemma_joined_insert_at(ts: Seq<Seq<u8>>, k: int, x: Seq<u8>, off: int)
    requires
        0 <= k < ts.len(),
        joined(ts.take(k)).len() == off,
    ensures
        joined(ts.insert(k, x)) == joined(ts).take(off) + x + joined(ts).skip(off),
{
    lemma_joined_insert(ts, k, x);
    lemma_joined_cut(ts, k, 0, off);
    assert(ts[k].take(0) =~= Seq::<u8>::empty());
    assert(ts[k].skip(0) =~= ts[k]);
    lemma_joined_split(ts.skip(k), 1);
    assert(ts.skip(k).take(1) =~= seq![ts[k]]);
    assert(ts.skip(k).skip(1) =~= ts.skip(k + 1));
    lemma_joined_single(ts[k]);
    assert(joined(ts.take(k)) + ts[k].take(0) =~= joined(ts.take(k)));
}

/// A text put in at the end lands at the end.
pub proof fn lemma_joined_insert_end(ts: Seq<Seq<u8>>, x: Seq<u8>)
    ensures
        joined(ts.insert(ts.len() as int, x)) == joined(ts) + x,
{
    assert(ts.insert(ts.len() as int, x) =~= ts.push(x));
    assert(ts.push(x).drop_last() =~= ts);
}

/// Splitting text `k` at `l` and putting `x` in between lands `x` at the split byte.
pub proof fn lemma_joined_split_insert(ts: Seq<Seq<u8>>, k: int, l: int, x: Seq<u8>, off: int)
    requires
        0 <= k < ts.len(),
        0 <= l <= ts[k].len(),
        joined(ts.take(k)).len() + l == off,
    ensures
        joined(ts.update(k, ts[k].take(l)).insert(k + 1, x).insert(k + 2, ts[k].skip(l))) == joined(ts).take(off) + x
            + joined(ts).skip(off),
{
    let y = ts[k];
    lemma_joined_cut(ts, k, l, off);
    let r = ts.update(k, y.take(l)).insert(k + 1, x).insert(k + 2, y.skip(l));
    let three = seq![y.take(l), x, y.skip(l)];
    assert(r =~= ts.take(k) + three + ts.skip(k + 1));
    lemma_joined_append(ts.take(k) + three, ts.skip(k + 1));
    lemma_joined_append(ts.take(k), three);
    assert(three =~= seq![y.take(l)] + seq![x] + seq![y.skip(l)]);
    lemma_joined_append(seq![y.take(l)] + seq![x], seq![y.skip(l)]);
    lemma_joined_append(seq![y.take(l)], seq![x]);
    lemma_joined_single(y.take(l));
    lemma_joined_single(x);
    lemma_joined_single(y.skip(l));
}

/// Cutting bytes `l..m` out of text `k`, keeping the rest after them as a text of its own
/// right after it, cuts those bytes out of the concatenation.
pub proof fn lemma_joined_cut_out(ts: Seq<Seq<u8>>, k: int, l: int, m: int, off: int)
    requires
        0 <= k < ts.len(),
        0 <= l <= m <= ts[k].len(),
        joined(ts.take(k)).len() + l == off,
    ensures
        joined(ts.update(k, ts[k].take(l)).insert(k + 1, ts[k].skip(m))) == joined(ts).take(off) + joined(ts).skip(
            off + m - l,
        ),
{
    let y = ts[k];
    lemma_joined_cut(ts, k, l, off);
    lemma_joined_cut(ts, k, m, off + m - l);
    let r = ts.update(k, y.take(l)).insert(k + 1, y.skip(m));
    let two = seq![y.take(l), y.skip(m)];
    assert(r =~= ts.take(k) + two + ts.skip(k + 1));
    lemma_joined_append(ts.take(k) + two, ts.skip(k + 1));
    lemma_joined_append(ts.take(k), two);
    assert(two =~= seq![y.take(l)] + seq![y.skip(m)]);
    lemma_joined_append(seq![y.take(l)], seq![y.skip(m)]);
    lemma_joined_single(y.take(l));
    lemma_joined_single(y.skip(m));
}

} // verus!
