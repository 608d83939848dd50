use vstd::prelude::*;
use crate::lines::{
    keep_below, lemma_newline_offsets_skip, lemma_newline_offsets_take, newline_offsets, shift_down,
    strictly_increasing,
};

verus! {

/// Which buffer a piece points into.
#[derive(Clone, Copy, Debug, PartialEq, Eq, Structural)]
pub enum BufferKind {
    Original,
    Add,
}

/// A contiguous byte range of one buffer, with the positions of its line feeds
/// (relative to the start of the piece).
#[derive(Debug)]
pub struct Piece {
    pub buffer_kind: BufferKind,
    pub start: usize,
    pub length: usize,
    pub line_feed_count: usize,
    pub line_starts: Vec<usize>,
}

/// The bytes of `buf` that the piece `p` covers.
pub open spec fn piece_text(p: Piece, buf: Seq<u8>) -> Seq<u8> {
    buf.subrange(p.start as int, p.start + p.length)
}

/// `p` lies inside `buf`, and its line feed record matches the bytes it covers.
pub open spec fn piece_wf(p: Piece, buf: Seq<u8>) -> bool {
    &&& p.start + p.length <= buf.len()
    &&& p.line_starts@ == newline_offsets(piece_text(p, buf))
    &&& p.line_feed_count == p.line_starts.len()
}

/// Two pieces cover the same range with the same line record.
pub open spec fn same_piece(p: Piece, q: Piece) -> bool {
    &&& p.buffer_kind == q.buffer_kind
    &&& p.start == q.start
    &&& p.length == q.length
    &&& p.line_feed_count == q.line_feed_count
    &&& p.line_starts@ == q.line_starts@
}

/// Well-formedness depends only on what `same_piece` compares.
pub proof fn lemma_same_piece_wf(p: Piece, q: Piece, buf: Seq<u8>)
    requires
        same_piece(p, q),
    ensures
        piece_wf(p, buf) == piece_wf(q, buf),
        piece_text(p, buf) == piece_text(q, buf),
{
}

impl Clone for Piece {
    fn clone(&self) -> (r: Self)
        ensures
            same_piece(r, *self),
    {
        let mut line_starts: Vec<usize> = Vec::new();
        let mut i: usize = 0;
        while i < self.line_starts.len()
            invariant
                i <= self.line_starts.len(),
                line_starts@ == self.line_starts@.take(i as int),
            decreases self.line_starts.len() - i,
        {
            line_starts.push(self.line_starts[i]);
            i += 1;
            assert(line_starts@ =~= self.line_starts@.take(i as int));
        }
        assert(line_starts@ =~= self.line_starts@);
        Piece {
            buffer_kind: self.buffer_kind,
            start: self.start,
            length: self.length,
            line_feed_count: self.line_feed_count,
            line_starts,
        }
    }
}

impl Piece {
    /// A piece over `length` bytes from `start` of the given buffer; its line feed
    /// count is the number of recorded line starts.
    pub fn new(buffer_kind: BufferKind, start: usize, length: usize, line_starts: Vec<usize>) -> (r: Self)
        ensures
            r.buffer_kind == buffer_kind,
            r.start == start,
            r.length == length,
            r.line_starts == line_starts,
            r.line_feed_count == line_starts.len(),
    {
        Self {
            buffer_kind: buffer_kind,
            start: start,
            length: length,
            line_feed_count: line_starts.len(),
            line_starts: line_starts,
        }
    }

    /// Drops the first `amount` bytes of the piece.
    pub fn trim_start(&self, amount: usize) -> (r: Self)
        requires
            amount <= self.length,
            self.start + amount <= usize::MAX,
        ensures
            r.buffer_kind == self.buffer_kind,
            r.start == self.start + amount,
            r.length == self.length - amount,
            r.line_starts@ == shift_down(self.line_starts@, amount as int),
            r.line_feed_count == r.line_starts.len(),
            forall|buf: Seq<u8>| #[trigger] piece_wf(*self, buf) ==> piece_wf(r, buf),
    {
        let mut new_line_starts: Vec<usize> = Vec::new();
        let mut i: usize = 0;
        while i < self.line_starts.len()
            invariant
                i <= self.line_starts.len(),
                new_line_starts@ == shift_down(self.line_starts@.take(i as int), amount as int),
            decreases self.line_starts.len() - i,
        {
            let pos = self.line_starts[i];
            proof {
                assert(self.line_starts@.take(i + 1).drop_last() =~= self.line_starts@.take(i as int));
            }
            if pos >= amount {
                new_line_starts.push(pos - amount);
            }
            i += 1;
        }
        assert(self.line_starts@.take(i as int) =~= self.line_starts@);
        let r = Piece::new(self.buffer_kind, self.start + amount, self.length - amount, new_line_starts);
        proof {
            assert forall|buf: Seq<u8>| #[trigger] piece_wf(*self, buf) implies piece_wf(r, buf) by {
                let t = piece_text(*self, buf);
                lemma_newline_offsets_skip(t, amount as int);
                assert(t.skip(amount as int) =~= piece_text(r, buf));
            }
        }
        r
    }

    /// Keeps the first `new_length` bytes of the piece.
    pub fn trim_end(&self, new_length: usize) -> (r: Self)
        ensures
            r.buffer_kind == self.buffer_kind,
            r.start == self.start,
            r.length == new_length,
            r.line_starts@ == keep_below(self.line_starts@, new_length as int),
            r.line_feed_count == r.line_starts.len(),
            new_length <= self.length ==> forall|buf: Seq<u8>| #[trigger] piece_wf(*self, buf) ==> piece_wf(r, buf),
    {
        let mut new_line_starts: Vec<usize> = Vec::new();
        let mut i: usize = 0;
        while i < self.line_starts.len()
            invariant
                i <= self.line_starts.len(),
                new_line_starts@ == keep_below(self.line_starts@.take(i as int), new_length as int),
            decreases self.line_starts.len() - i,
        {
            let pos = self.line_starts[i];
            proof {
                assert(self.line_starts@.take(i + 1).drop_last() =~= self.line_starts@.take(i as int));
            }
            if pos < new_length {
                new_line_starts.push(pos);
            }
            i += 1;
        }
        assert(self.line_starts@.take(i as int) =~= self.line_starts@);
        let r = Piece::new(self.buffer_kind, self.start, new_length, new_line_starts);
        proof {
            if new_length <= self.length {
                assert forall|buf: Seq<u8>| #[trigger] piece_wf(*self, buf) implies piece_wf(r, buf) by {
                    let t = piece_text(*self, buf);
                    lemma_newline_offsets_take(t, new_length as int);
                    assert(t.take(new_length as int) =~= piece_text(r, buf));
                }
            }
        }
        r
    }

    /// Splits the piece into the bytes before `local_offset` and the bytes from it on.
    pub fn split_at(&self, local_offset: usize) -> (r: (Self, Self))
        requires
            local_offset <= self.length,
            self.start + local_offset <= usize::MAX,
        ensures
            r.0.buffer_kind == self.buffer_kind,
            r.0.start == self.start,
            r.0.length == local_offset,
            r.0.line_starts@ == keep_below(self.line_starts@, local_offset as int),
            r.0.line_feed_count == r.0.line_starts.len(),
            r.1.buffer_kind == self.buffer_kind,
            r.1.start == self.start + local_offset,
            r.1.length == self.length - local_offset,
            r.1.line_starts@ == shift_down(self.line_starts@, local_offset as int),
            r.1.line_feed_count == r.1.line_starts.len(),
            forall|buf: Seq<u8>| #[trigger] piece_wf(*self, buf) ==> piece_wf(r.0, buf) && piece_wf(r.1, buf),
    {
        let split_2_start = self.start + local_offset;
        let split_1_length = local_offset;
        let split_2_length = self.length - local_offset;
        let mut split_1_line_starts: Vec<usize> = Vec::new();
        let mut split_2_line_starts: Vec<usize> = Vec::new();
        let mut i: usize = 0;
        while i < self.line_starts.len()
            invariant
                i <= self.line_starts.len(),
                split_1_line_starts@ == keep_below(self.line_starts@.take(i as int), local_offset as int),
                split_2_line_starts@ == shift_down(self.line_starts@.take(i as int), local_offset as int),
            decreases self.line_starts.len() - i,
        {
            let pos = self.line_starts[i];
            proof {
                assert(self.line_starts@.take(i + 1).drop_last() =~= self.line_starts@.take(i as int));
            }
            if pos < local_offset {
                split_1_line_starts.push(pos);
            } else {
                split_2_line_starts.push(pos - local_offset);
            }
            i += 1;
        }
        assert(self.line_starts@.take(i as int) =~= self.line_starts@);
        let left = Piece::new(self.buffer_kind, self.start, split_1_length, split_1_line_starts);
        let right = Piece::new(self.buffer_kind, split_2_start, split_2_length, split_2_line_starts);
        proof {
            assert forall|buf: Seq<u8>| #[trigger] piece_wf(*self, buf) implies piece_wf(left, buf) && piece_wf(right, buf) by {
                let t = piece_text(*self, buf);
                lemma_newline_offsets_take(t, local_offset as int);
                lemma_newline_offsets_skip(t, local_offset as int);
                assert(t.take(local_offset as int) =~= piece_text(left, buf));
                assert(t.skip(local_offset as int) =~= piece_text(right, buf));
            }
        }
        (left, right)
    }

    /// The line (number of recorded line feeds before the offset) and the column (distance
    /// from the byte after the last such line feed, or from the piece start) of a local
    /// offset.
    pub fn offset_to_line_col(&self, local_offset: usize) -> (r: (usize, usize))
        requires
            strictly_increasing(self.line_starts@),
        ensures
            r.0 <= self.line_starts.len(),
            forall|i: int| 0 <= i < r.0 ==> self.line_starts@[i] < local_offset,
            forall|i: int| r.0 <= i < self.line_starts.len() ==> self.line_starts@[i] >= local_offset,
            r.1 == (if r.0 == 0 {
                local_offset as int
            } else {
                local_offset - self.line_starts@[r.0 - 1] - 1
            }),
    {
        // first index whose line feed lies at or after the offset
        let mut lo: usize = 0;
        let mut hi: usize = self.line_starts.len();
        while lo < hi
            invariant
                lo <= hi <= self.line_starts.len(),
                strictly_increasing(self.line_starts@),
                forall|i: int| 0 <= i < lo ==> self.line_starts@[i] < local_offset,
                forall|i: int| hi <= i < self.line_starts.len() ==> self.line_starts@[i] >= local_offset,
            decreases hi - lo,
        {
            let mid = lo + (hi - lo) / 2;
            if self.line_starts[mid] < local_offset {
                lo = mid + 1;
            } else {
                hi = mid;
            }
        }
        let line = lo;
        let col = if line == 0 {
            local_offset
        } else {
            local_offset - self.line_starts[line - 1] - 1
        };
        (line, col)
    }
}

} // verus!
