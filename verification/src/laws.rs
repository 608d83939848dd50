use vstd::prelude::*;
use crate::doc::{joined, lemma_joined_append, span_len};
use crate::edit::lemma_doc_joined;
use crate::lines::newline_count;
use crate::tree::PieceTree;

verus! {

impl PieceTree {
    /// Facts about the slot texts of a well formed tree around the piece holding `offset`.
    pub proof fn lemma_texts_at(&self, offset: int)
        requires
            self.wf(),
            0 <= offset < self.doc().len(),
        ensures
            ({
                let (k, l) = self.piece_at(offset);
                &&& 0 <= k < self.texts().len()
                &&& 0 <= l < self.texts()[k].len()
                &&& joined(self.texts().take(k)).len() + l == offset
                &&& self.occupied(k as usize)
            }),
            self.texts().len() == self.nodes().len(),
            self.doc() == joined(self.texts()),
    {
        self.lemma_piece_at(offset);
        let (k, l) = self.piece_at(offset);
        self.lemma_shaped_basics(None, None);
        self.lemma_slot_piece(k as usize);
        crate::doc::lemma_slot_text_shape(self.nodes(), self.original_bytes(), self.add_bytes(), k);
        crate::doc::lemma_texts_prefix(self.nodes(), self.original_bytes(), self.add_bytes(), k);
        lemma_doc_joined(*self);
    }
}

/// Deleting shortens the document by the number of deleted bytes that it held.
pub proof fn law_delete_length(t: PieceTree, start: int, length: int)
    requires
        0 <= start,
        0 <= length,
    ensures
        t.deleted_doc(start, length).len() == t.doc().len() - (if start >= t.doc().len() {
            0
        } else if start + length < t.doc().len() {
            length
        } else {
            t.doc().len() - start
        }),
{
}

/// Deleting the bytes that an insertion just put in gives back the document from before the
/// insertion.
pub proof fn law_delete_undoes_insert(before: PieceTree, after: PieceTree, offset: int, text: Seq<u8>)
    requires
        0 <= offset <= before.doc().len(),
        after.doc() == before.doc().take(offset) + text + before.doc().skip(offset),
    ensures
        after.deleted_doc(offset, text.len() as int) == before.doc(),
{
    let d = before.doc();
    let e = after.doc();
    if text.len() == 0 || offset >= e.len() {
        assert(d.take(offset) + d.skip(offset) =~= d);
        if text.len() == 0 {
            assert(e =~= d);
        }
    } else {
        assert(e.take(offset) =~= d.take(offset));
        assert(e.skip(offset + text.len()) =~= d.skip(offset));
        assert(d.take(offset) + d.skip(offset) =~= d);
    }
}

/// The texts before slot `k` and slot `k` itself fit in the concatenation.
pub proof fn lemma_joined_prefix_len(ts: Seq<Seq<u8>>, k: int)
    requires
        0 <= k < ts.len(),
    ensures
        joined(ts.take(k)).len() + ts[k].len() <= joined(ts).len(),
{
    crate::doc::lemma_cut_range(ts, k, 0, 0);
    let p = ts.take(k);
    let s = ts.skip(k + 1);
    assert(ts =~= p + seq![ts[k]] + s);
    assert(joined(seq![ts[k]]) =~= ts[k]) by {
        assert(seq![ts[k]].drop_last() =~= Seq::<Seq<u8>>::empty());
        assert(joined(Seq::<Seq<u8>>::empty()) + ts[k] =~= ts[k]);
    }
    lemma_joined_append(p + seq![ts[k]], s);
    lemma_joined_append(p, seq![ts[k]]);
}

/// Every position of the document lies on one of its lines: its line number is below the
/// line count.
pub proof fn law_line_of_offset(t: PieceTree, offset: int)
    requires
        t.wf(),
        0 <= offset < t.doc().len(),
    ensures
        newline_count(t.doc().take(offset + 1)) < t.total_lines,
{
    t.lemma_doc_is_tree(None);
    let d = t.doc();
    crate::lines::lemma_newline_count_concat(d.take(offset + 1), d.skip(offset + 1));
    assert(d.take(offset + 1) + d.skip(offset + 1) =~= d);
}

} // verus!
