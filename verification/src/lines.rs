use vstd::prelude::*;

verus! {

/// Byte value of the line feed character `'\n'`.
pub const LINE_FEED: u8 = 10u8;

/// The positions of the line feed bytes in `s`, in increasing order.
pub open spec fn newline_offsets(s: Seq<u8>) -> Seq<usize>
    decreases s.len(),
{
    if s.len() == 0 {
        Seq::empty()
    } else {
        let rest = newline_offsets(s.drop_last());
        if s.last() == LINE_FEED {
            rest.push((s.len() - 1) as usize)
        } else {
            rest
        }
    }
}

/// The number of line feed bytes in `s`.
pub open spec fn newline_count(s: Seq<u8>) -> nat {
    newline_offsets(s).len()
}

/// The entries of `ls` that are below `n`, in their order.
pub open spec fn keep_below(ls: Seq<usize>, n: int) -> Seq<usize>
    decreases ls.len(),
{
    if ls.len() == 0 {
        Seq::empty()
    } else {
        let rest = keep_below(ls.drop_last(), n);
        if (ls.last() as int) < n {
            rest.push(ls.last())
        } else {
            rest
        }
    }
}

/// The entries of `ls` that are at least `a`, each lowered by `a`, in their order.
pub open spec fn shift_down(ls: Seq<usize>, a: int) -> Seq<usize>
    decreases ls.len(),
{
    if ls.len() == 0 {
        Seq::empty()
    } else {
        let rest = shift_down(ls.drop_last(), a);
        if (ls.last() as int) >= a {
            rest.push((ls.last() - a) as usize)
        } else {
            rest
        }
    }
}

/// `ls` is strictly increasing.
pub open spec fn strictly_increasing(ls: Seq<usize>) -> bool {
    forall|i: int, j: int| 0 <= i < j < ls.len() ==> ls[i] < ls[j]
}

/// Every line feed position lies inside `s`, and the positions increase strictly.
pub proof fn lemma_newline_offsets_shape(s: Seq<u8>)
    requires
        s.len() <= usize::MAX + 1,
    ensures
        strictly_increasing(newline_offsets(s)),
        forall|i: int| 0 <= i < newline_offsets(s).len() ==> (newline_offsets(s)[i] as int) < s.len(),
        forall|i: int| 0 <= i < newline_offsets(s).len() ==> s[newline_offsets(s)[i] as int] == LINE_FEED,
        newline_offsets(s).len() <= s.len(),
    decreases s.len(),
{
    if s.len() > 0 {
        lemma_newline_offsets_shape(s.drop_last());
    }
}

/// A position of `s` holds a line feed exactly when it is listed.
pub proof fn lemma_newline_offsets_contains(s: Seq<u8>, p: int)
    requires
        s.len() <= usize::MAX + 1,
        0 <= p < s.len(),
    ensures
        (s[p] == LINE_FEED) <==> newline_offsets(s).contains(p as usize),
    decreases s.len(),
{
    lemma_newline_offsets_shape(s);
    if p < s.len() - 1 {
        lemma_newline_offsets_contains(s.drop_last(), p);
        lemma_newline_offsets_shape(s.drop_last());
        let r = newline_offsets(s.drop_last());
        if s.last() == LINE_FEED {
            if newline_offsets(s).contains(p as usize) {
                let k = choose|k: int| 0 <= k < newline_offsets(s).len() && newline_offsets(s)[k] == p as usize;
                if k == r.len() {
                    assert(false);
                }
                assert(r.contains(p as usize));
            }
            if r.contains(p as usize) {
                let k = choose|k: int| 0 <= k < r.len() && r[k] == p as usize;
                assert(newline_offsets(s)[k] == p as usize);
            }
        }
    } else {
        let r = newline_offsets(s.drop_last());
        lemma_newline_offsets_shape(s.drop_last());
        if s.last() == LINE_FEED {
            assert(newline_offsets(s)[r.len() as int] == p as usize);
        } else {
            if newline_offsets(s).contains(p as usize) {
                let k = choose|k: int| 0 <= k < newline_offsets(s).len() && newline_offsets(s)[k] == p as usize;
                assert(r[k] < s.len() - 1);
            }
        }
    }
}

/// The line feeds of a prefix are the line feeds below its end.
pub proof fn lemma_newline_offsets_take(s: Seq<u8>, n: int)
    requires
        s.len() <= usize::MAX + 1,
        0 <= n <= s.len(),
    ensures
        newline_offsets(s.take(n)) == keep_below(newline_offsets(s), n),
    decreases s.len(),
{
    lemma_newline_offsets_shape(s);
    if s.len() == n {
        assert(s.take(n) =~= s);
        lemma_keep_below_all(newline_offsets(s), n);
    } else {
        lemma_newline_offsets_take(s.drop_last(), n);
        assert(s.drop_last().take(n) =~= s.take(n));
        let r = newline_offsets(s.drop_last());
        if s.last() == LINE_FEED {
            assert(newline_offsets(s).drop_last() =~= r);
            assert(newline_offsets(s).last() == (s.len() - 1) as usize);
        }
    }
}

/// Keeping the entries below a bound that all entries respect keeps everything.
pub proof fn lemma_keep_below_all(ls: Seq<usize>, n: int)
    requires
        forall|i: int| 0 <= i < ls.len() ==> (ls[i] as int) < n,
    ensures
        keep_below(ls, n) == ls,
    decreases ls.len(),
{
    if ls.len() > 0 {
        lemma_keep_below_all(ls.drop_last(), n);
        assert(ls.drop_last().push(ls.last()) =~= ls);
    }
}

/// Shifting entries that are all below the shift drops all of them.
pub proof fn lemma_shift_down_none(ls: Seq<usize>, a: int)
    requires
        forall|i: int| 0 <= i < ls.len() ==> (ls[i] as int) < a,
    ensures
        shift_down(ls, a) == Seq::<usize>::empty(),
    decreases ls.len(),
{
    if ls.len() > 0 {
        lemma_shift_down_none(ls.drop_last(), a);
    }
}

/// The line feeds of a suffix are the line feeds from its start on, shifted down.
pub proof fn lemma_newline_offsets_skip(s: Seq<u8>, a: int)
    requires
        s.len() <= usize::MAX + 1,
        0 <= a <= s.len(),
    ensures
        newline_offsets(s.skip(a)) == shift_down(newline_offsets(s), a),
    decreases s.len(),
{
    lemma_newline_offsets_shape(s);
    if s.len() == a {
        assert(s.skip(a) =~= Seq::<u8>::empty());
        lemma_shift_down_none(newline_offsets(s), a);
    } else {
        lemma_newline_offsets_skip(s.drop_last(), a);
        assert(s.skip(a).drop_last() =~= s.drop_last().skip(a));
        assert(s.skip(a).last() == s.last());
        let r = newline_offsets(s.drop_last());
        if s.last() == LINE_FEED {
            assert(newline_offsets(s).drop_last() =~= r);
            assert(newline_offsets(s).last() == (s.len() - 1) as usize);
        }
    }
}

/// The line feeds of a concatenation are those of both parts.
pub proof fn lemma_newline_count_concat(a: Seq<u8>, b: Seq<u8>)
    ensures
        newline_count(a + b) == newline_count(a) + newline_count(b),
    decreases b.len(),
{
    if b.len() == 0 {
        assert(a + b =~= a);
    } else {
        lemma_newline_count_concat(a, b.drop_last());
        assert((a + b).drop_last() =~= a + b.drop_last());
        assert((a + b).last() == b.last());
    }
}

/// The number of line feeds never exceeds the number of bytes.
pub proof fn lemma_newline_count_bound(s: Seq<u8>)
    ensures
        newline_count(s) <= s.len(),
    decreases s.len(),
{
    if s.len() > 0 {
        lemma_newline_count_bound(s.drop_last());
    }
}

/// The entries kept below `n` of an increasing sequence form its prefix of entries below `n`.
pub proof fn lemma_keep_below_prefix(ls: Seq<usize>, n: int)
    requires
        strictly_increasing(ls),
    ensures
        keep_below(ls, n).len() <= ls.len(),
        keep_below(ls, n) == ls.take(keep_below(ls, n).len() as int),
        forall|i: int| 0 <= i < keep_below(ls, n).len() ==> (ls[i] as int) < n,
        forall|i: int| keep_below(ls, n).len() <= i < ls.len() ==> (ls[i] as int) >= n,
    decreases ls.len(),
{
    if ls.len() > 0 {
        let d = ls.drop_last();
        assert(strictly_increasing(d));
        lemma_keep_below_prefix(d, n);
        let r = keep_below(d, n);
        if (ls.last() as int) < n {
            assert forall|i: int| 0 <= i < d.len() implies (d[i] as int) < n by {
                assert(ls[i] < ls[ls.len() - 1]);
            }
            lemma_keep_below_all(d, n);
            assert(r.push(ls.last()) =~= ls.take(ls.len() as int));
            assert forall|i: int| 0 <= i < ls.len() implies (ls[i] as int) < n by {
                if i < d.len() {
                    assert(ls[i] == d[i]);
                }
            }
        } else {
            assert(r =~= ls.take(r.len() as int));
            assert forall|i: int| 0 <= i < r.len() implies (ls[i] as int) < n by {
                assert(ls[i] == d[i]);
            }
            assert forall|i: int| r.len() <= i < ls.len() implies (ls[i] as int) >= n by {
                if i < d.len() {
                    assert(ls[i] == d[i]);
                }
            }
        }
    }
}

} // verus!

verus! {

/// The positions of the line feed bytes of `bytes`, in increasing order.
pub fn line_feed_offsets(bytes: &[u8]) -> (r: Vec<usize>)
    ensures
        r@ == newline_offsets(bytes@),
{
    let mut line_starts: Vec<usize> = Vec::new();
    let mut i: usize = 0;
    while i < bytes.len()
        invariant
            i <= bytes@.len(),
            line_starts@ == newline_offsets(bytes@.take(i as int)),
        decreases bytes@.len() - i,
    {
        proof {
            assert(bytes@.take(i + 1).drop_last() =~= bytes@.take(i as int));
        }
        if bytes[i] == LINE_FEED {
            line_starts.push(i);
        }
        i += 1;
    }
    proof {
        assert(bytes@.take(i as int) =~= bytes@);
    }
    line_starts
}

} // verus!
