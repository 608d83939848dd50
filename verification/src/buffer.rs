use vstd::prelude::*;
use vstd::string::StringExecFns;
use vstd::string::StringSliceAdditionalSpecFns;
use vstd::utf8::encode_utf8;
use crate::utf8_text::{lemma_boundary_at_concat, lemma_encode_concat};
use crate::lines::{newline_offsets, LINE_FEED};

verus! {

broadcast use vstd::string::group_string_axioms;

/// The text the document was opened with, and the positions of its line feeds.
pub struct OriginalBuffer {
    pub content: String,
    pub line_starts: Vec<usize>,
}

/// The append-only buffer that holds every inserted text, and the positions of its line
/// breaks (line feeds and carriage returns).
pub struct AddBuffer {
    pub content: String,
    pub line_starts: Vec<usize>,
}

/// Line feed positions moved up by `base`.
pub open spec fn shifted_offsets(ls: Seq<usize>, base: int) -> Seq<usize> {
    ls.map_values(|p: usize| (p + base) as usize)
}

/// The carriage return byte.
pub const CARRIAGE_RETURN: u8 = 13u8;

/// The positions of the line breaks of `s`, its line feed and carriage return bytes, in
/// increasing order.
pub open spec fn break_offsets(s: Seq<u8>) -> Seq<usize>
    decreases s.len(),
{
    if s.len() == 0 {
        Seq::empty()
    } else {
        let rest = break_offsets(s.drop_last());
        if s.last() == LINE_FEED || s.last() == CARRIAGE_RETURN {
            rest.push((s.len() - 1) as usize)
        } else {
            rest
        }
    }
}

/// The line breaks of a concatenation: those of the first part, then those of the second
/// part moved up by the first part's length.
pub proof fn lemma_break_offsets_concat(a: Seq<u8>, b: Seq<u8>)
    requires
        a.len() + b.len() <= usize::MAX,
    ensures
        break_offsets(a + b) == break_offsets(a) + shifted_offsets(break_offsets(b), a.len() as int),
    decreases b.len(),
{
    if b.len() == 0 {
        assert(a + b =~= a);
        assert(shifted_offsets(break_offsets(b), a.len() as int) =~= Seq::<usize>::empty());
    } else {
        lemma_break_offsets_concat(a, b.drop_last());
        assert((a + b).drop_last() =~= a + b.drop_last());
        assert((a + b).last() == b.last());
        let rest = break_offsets(b.drop_last());
        if b.last() == LINE_FEED || b.last() == CARRIAGE_RETURN {
            assert(shifted_offsets(rest.push((b.len() - 1) as usize), a.len() as int) =~= shifted_offsets(
                rest,
                a.len() as int,
            ).push((a.len() + b.len() - 1) as usize));
        }
        assert(break_offsets(a + b) =~= break_offsets(a) + shifted_offsets(break_offsets(b), a.len() as int));
    }
}

/// The line feeds of a concatenation: those of the first part, then those of the second
/// part moved up by the first part's length.
pub proof fn lemma_newline_offsets_concat(a: Seq<u8>, b: Seq<u8>)
    requires
        a.len() + b.len() <= usize::MAX,
    ensures
        newline_offsets(a + b) == newline_offsets(a) + shifted_offsets(newline_offsets(b), a.len() as int),
    decreases b.len(),
{
    if b.len() == 0 {
        assert(a + b =~= a);
        assert(shifted_offsets(newline_offsets(b), a.len() as int) =~= Seq::<usize>::empty());
    } else {
        lemma_newline_offsets_concat(a, b.drop_last());
        assert((a + b).drop_last() =~= a + b.drop_last());
        assert((a + b).last() == b.last());
        let rest = newline_offsets(b.drop_last());
        if b.last() == LINE_FEED {
            assert(shifted_offsets(rest.push((b.len() - 1) as usize), a.len() as int) =~= shifted_offsets(
                rest,
                a.len() as int,
            ).push((a.len() + b.len() - 1) as usize));
        }
        assert(newline_offsets(a + b) =~= newline_offsets(a) + shifted_offsets(newline_offsets(b), a.len() as int));
    }
}

impl AddBuffer {
    /// The UTF-8 bytes of the buffer.
    pub open spec fn bytes(&self) -> Seq<u8> {
        encode_utf8(self.content@)
    }

    /// An empty add buffer.
    pub fn new() -> (r: Self)
        ensures
            r.content@ == Seq::<char>::empty(),
            r.line_starts@ == Seq::<usize>::empty(),
    {
        Self { content: String::new(), line_starts: Vec::new() }
    }

    /// Appends `text`, records the breaks it holds, and returns where it starts in the
    /// buffer and its length, both in bytes.
    pub fn append(&mut self, text: &str) -> (r: (usize, usize))
        requires
            old(self).bytes().len() + text.spec_bytes().len() <= usize::MAX,
        ensures
            r.0 == old(self).bytes().len(),
            r.1 == text.spec_bytes().len(),
            final(self).content@ == old(self).content@ + text@,
            final(self).bytes() == old(self).bytes() + text.spec_bytes(),
            final(self).line_starts@ == old(self).line_starts@ + shifted_offsets(
                break_offsets(text.spec_bytes()),
                old(self).bytes().len() as int,
            ),
            old(self).line_starts@ == break_offsets(old(self).bytes()) ==> final(self).line_starts@ == break_offsets(
                final(self).bytes(),
            ),
    {
        let start = self.content.as_str().len();
        self.content.append(text);
        proof {
            lemma_encode_concat(old(self).content@, text@);
            lemma_boundary_at_concat(old(self).content@, text@);
        }
        self.scan_line_starts(start);
        proof {
            assert(encode_utf8(self.content@).subrange(start as int, encode_utf8(self.content@).len() as int) =~= text.spec_bytes());
            lemma_break_offsets_concat(old(self).bytes(), text.spec_bytes());
        }
        (start, text.len())
    }

    /// Records the positions of the line breaks (line feeds and carriage returns) of the
    /// content from byte `from_offset` on.
    fn scan_line_starts(&mut self, from_offset: usize)
        requires
            from_offset <= old(self).bytes().len(),
            old(self).bytes().len() <= usize::MAX,
        ensures
            final(self).content == old(self).content,
            final(self).line_starts@ == old(self).line_starts@ + shifted_offsets(
                break_offsets(old(self).bytes().subrange(from_offset as int, old(self).bytes().len() as int)),
                from_offset as int,
            ),
    {
        let ghost old_ls = self.line_starts@;
        let bytes = self.content.as_str().as_bytes();
        let ghost bs = old(self).bytes();
        proof {
            assert(bytes@ == bs);
        }
        let mut i: usize = from_offset;
        while i < bytes.len()
            invariant
                from_offset <= i <= bytes@.len(),
                bytes@ == bs,
                self.content == old(self).content,
                self.line_starts@ == old_ls + shifted_offsets(break_offsets(bs.subrange(from_offset as int, i as int)), from_offset as int),
            decreases bytes@.len() - i,
        {
            let ghost sub = bs.subrange(from_offset as int, i + 1);
            proof {
                assert(sub.drop_last() =~= bs.subrange(from_offset as int, i as int));
            }
            if bytes[i] == LINE_FEED || bytes[i] == CARRIAGE_RETURN {
                self.line_starts.push(i);
                proof {
                    let prev = break_offsets(bs.subrange(from_offset as int, i as int));
                    assert(shifted_offsets(prev.push((i - from_offset) as usize), from_offset as int) =~= shifted_offsets(
                        prev,
                        from_offset as int,
                    ).push(i));
                }
            }
            proof {
                assert(self.line_starts@ =~= old_ls + shifted_offsets(break_offsets(sub), from_offset as int));
            }
            i += 1;
        }
    }
}

} // verus!
