use vstd::prelude::*;
use vstd::string::StringExecFns;
use vstd::string::StringSliceAdditionalSpecFns;
use vstd::utf8::*;

verus! {

broadcast use vstd::utf8::group_utf8_lib;

/// Encoding distributes over concatenation.
pub proof fn lemma_encode_concat(a: Seq<char>, b: Seq<char>)
    ensures
        encode_utf8(a + b) == encode_utf8(a) + encode_utf8(b),
    decreases a.len(),
{
    if a.len() == 0 {
        assert(a + b =~= b);
        assert(encode_utf8(a) + encode_utf8(b) =~= encode_utf8(b));
    } else {
        lemma_encode_concat(a.drop_first(), b);
        assert((a + b).drop_first() =~= a.drop_first() + b);
        assert((a + b)[0] == a[0]);
        assert(encode_utf8(a + b) =~= encode_scalar(a[0] as u32) + (encode_utf8(a.drop_first())
            + encode_utf8(b)));
    }
}

/// Encoding never produces fewer bytes than characters.
pub proof fn lemma_encode_len(a: Seq<char>)
    ensures
        a.len() <= encode_utf8(a).len(),
    decreases a.len(),
{
    if a.len() > 0 {
        lemma_encode_len(a.drop_first());
        encode_utf8_first_scalar(a);
        reveal_with_fuel(encode_utf8, 1);
    }
}

/// The place where the encoding of `a` ends is a character boundary of the encoding of `a + b`.
pub proof fn lemma_boundary_at_concat(a: Seq<char>, b: Seq<char>)
    ensures
        is_char_boundary(encode_utf8(a + b), encode_utf8(a).len() as int),
    decreases a.len(),
{
    if a.len() == 0 {
        assert(encode_utf8(a).len() == 0);
    } else {
        let c = a + b;
        encode_utf8_first_scalar(c);
        encode_utf8_valid_utf8(c);
        assert(c.drop_first() =~= a.drop_first() + b);
        assert(c[0] == a[0]);
        assert(pop_first_scalar(encode_utf8(c)) =~= encode_utf8(c.drop_first()));
        lemma_boundary_at_concat(a.drop_first(), b);
        lemma_encode_len(a);
    }
}

/// A character boundary inside a valid encoding stays a boundary of the suffix that starts at
/// an earlier boundary.
pub proof fn lemma_boundary_in_suffix(bytes: Seq<u8>, a: int, b: int)
    requires
        valid_utf8(bytes),
        0 <= a <= b <= bytes.len(),
        is_char_boundary(bytes, a),
        is_char_boundary(bytes, b),
    ensures
        valid_utf8(bytes.subrange(a, bytes.len() as int)),
        is_char_boundary(bytes.subrange(a, bytes.len() as int), b - a),
{
    let t = bytes.subrange(a, bytes.len() as int);
    valid_utf8_split(bytes, a);
    if b == bytes.len() {
        is_char_boundary_start_end_of_seq(t);
    } else {
        is_char_boundary_iff_not_is_continuation_byte(bytes, b);
        is_char_boundary_iff_not_is_continuation_byte(t, b - a);
        assert(t[b - a] == bytes[b]);
    }
}

/// Appends the bytes `a..b` of `s` to `out`.
pub fn append_byte_range(out: &mut String, s: &str, a: usize, b: usize)
    requires
        a <= b <= s.spec_bytes().len(),
        is_char_boundary(s.spec_bytes(), a as int),
        is_char_boundary(s.spec_bytes(), b as int),
    ensures
        encode_utf8(final(out)@) == encode_utf8(old(out)@) + s.spec_bytes().subrange(a as int, b as int),
{
    proof {
        encode_utf8_valid_utf8(s@);
        lemma_boundary_in_suffix(s.spec_bytes(), a as int, b as int);
    }
    let (_, tail) = s.split_at(a);
    let (mid, _) = tail.split_at(b - a);
    proof {
        lemma_encode_concat(out@, mid@);
        assert(mid.spec_bytes() =~= s.spec_bytes().subrange(a as int, b as int));
    }
    out.append(mid);
}

} // verus!
