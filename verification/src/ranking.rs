//! Stable descending ranking of scored candidates.
//!
//! Candidates are (score, candidate index) pairs.  Sorting is by score
//! descending and is stable: candidates are fed in candidate order, and
//! equal scores keep that order.  The sort is specified as insertion into
//! a sorted list, which pins the result exactly.

use vstd::prelude::*;

verus! {

/// Insert a pair into a list sorted by score descending, after every entry
/// whose score is at least as high (which keeps the sort stable).
pub open spec fn insert_desc(sorted: Seq<(u64, usize)>, x: (u64, usize)) -> Seq<(u64, usize)>
    decreases sorted.len(),
{
    if sorted.len() == 0 {
        seq![x]
    } else if x.0 > sorted[0].0 {
        seq![x] + sorted
    } else {
        seq![sorted[0]] + insert_desc(sorted.drop_first(), x)
    }
}

/// Sort by score descending, stably, by successive insertion.
pub open spec fn sort_desc(s: Seq<(u64, usize)>) -> Seq<(u64, usize)>
    decreases s.len(),
{
    if s.len() == 0 {
        Seq::<(u64, usize)>::empty()
    } else {
        insert_desc(sort_desc(s.drop_last()), s.last())
    }
}

/// Scores never increase along the list.
pub open spec fn sorted_desc(s: Seq<(u64, usize)>) -> bool {
    forall|i: int, j: int| 0 <= i <= j < s.len() ==> (#[trigger] s[i]).0 >= (#[trigger] s[j]).0
}

/// Where `insert_desc` puts the new pair: after the longest prefix of
/// entries with a score at least as high.
pub open spec fn insert_pos(sorted: Seq<(u64, usize)>, x: (u64, usize)) -> int
    decreases sorted.len(),
{
    if sorted.len() == 0 || x.0 > sorted[0].0 {
        0
    } else {
        1 + insert_pos(sorted.drop_first(), x)
    }
}

/// `insert_desc` splices the pair in at `insert_pos`.
pub proof fn lemma_insert_desc_shape(s: Seq<(u64, usize)>, x: (u64, usize))
    ensures
        0 <= insert_pos(s, x) <= s.len(),
        insert_desc(s, x) == s.take(insert_pos(s, x)) + seq![x] + s.skip(insert_pos(s, x)),
        forall|q: int| 0 <= q < insert_pos(s, x) ==> (#[trigger] s[q]).0 >= x.0,
        insert_pos(s, x) < s.len() ==> x.0 > s[insert_pos(s, x)].0,
    decreases s.len(),
{
    let p = insert_pos(s, x);
    if s.len() == 0 {
        assert(insert_desc(s, x) =~= s.take(0) + seq![x] + s.skip(0));
    } else if x.0 > s[0].0 {
        assert(insert_desc(s, x) =~= s.take(0) + seq![x] + s.skip(0));
    } else {
        lemma_insert_desc_shape(s.drop_first(), x);
        let p0 = insert_pos(s.drop_first(), x);
        assert(p == 1 + p0);
        assert(s.drop_first().take(p0) =~= s.take(p).drop_first());
        assert(s.drop_first().skip(p0) =~= s.skip(p));
        assert(insert_desc(s, x) == seq![s[0]] + insert_desc(s.drop_first(), x));
        assert(insert_desc(s, x) =~= s.take(p) + seq![x] + s.skip(p));
        assert forall|q: int| 0 <= q < p implies (#[trigger] s[q]).0 >= x.0 by {
            if q > 0 {
                assert(s.drop_first()[q - 1].0 >= x.0);
            }
        }
        if p < s.len() {
            assert(s.drop_first()[p0] == s[p]);
        }
    }
}

/// Inserting preserves sortedness and adds exactly the new pair.
pub proof fn lemma_insert_desc_props(s: Seq<(u64, usize)>, x: (u64, usize))
    requires
        sorted_desc(s),
    ensures
        sorted_desc(insert_desc(s, x)),
        insert_desc(s, x).to_multiset() == s.to_multiset().insert(x),
        insert_desc(s, x).len() == s.len() + 1,
        forall|e: (u64, usize)|
            #[trigger] insert_desc(s, x).contains(e) <==> (s.contains(e) || e == x),
{
    broadcast use vstd::seq_lib::group_to_multiset_ensures;

    lemma_insert_desc_shape(s, x);
    let p = insert_pos(s, x);
    let out = insert_desc(s, x);
    assert forall|i: int, j: int| 0 <= i <= j < out.len() implies (#[trigger] out[i]).0 >= (
    #[trigger] out[j]).0 by {
        let oi: int = if i < p {
            i
        } else {
            i - 1
        };
        let oj: int = if j < p {
            j
        } else {
            j - 1
        };
        if i < p {
            assert(out[i] == s[i]);
        }
        if j < p {
            assert(out[j] == s[j]);
        }
        if i > p {
            assert(out[i] == s[i - 1]);
        }
        if j > p {
            assert(out[j] == s[j - 1]);
        }
        if i == p {
            assert(out[i] == x);
        }
        if j == p {
            assert(out[j] == x);
        }
        if i < p && j == p {
            assert(s[i].0 >= x.0);
        }
        if i == p && j > p {
            if p < s.len() {
                assert(x.0 > s[p].0);
                assert(s[p].0 >= s[j - 1].0);
            }
        }
        if i < p && j > p {
            assert(s[i].0 >= s[j - 1].0);
        }
    }
    assert(out =~= s.insert(p, x));
    assert(s.insert(p, x).to_multiset() == s.to_multiset().insert(x));
    assert forall|e: (u64, usize)| #[trigger]
        out.contains(e) <==> (s.contains(e) || e == x) by {
        assert(out.contains(e) == (out.to_multiset().count(e) > 0));
        assert(s.contains(e) == (s.to_multiset().count(e) > 0));
    }
}

/// The sort orders by score descending and permutes its input.
pub proof fn lemma_sort_desc_props(s: Seq<(u64, usize)>)
    ensures
        sorted_desc(sort_desc(s)),
        sort_desc(s).to_multiset() == s.to_multiset(),
        sort_desc(s).len() == s.len(),
        forall|e: (u64, usize)| #[trigger] sort_desc(s).contains(e) <==> s.contains(e),
    decreases s.len(),
{
    broadcast use vstd::seq_lib::group_to_multiset_ensures;

    if s.len() == 0 {
    } else {
        lemma_sort_desc_props(s.drop_last());
        lemma_insert_desc_props(sort_desc(s.drop_last()), s.last());
        assert(s =~= s.drop_last().push(s.last()));
        assert(s.to_multiset() == s.drop_last().to_multiset().insert(s.last()));
        assert forall|e: (u64, usize)| #[trigger]
            sort_desc(s).contains(e) <==> s.contains(e) by {
            assert(sort_desc(s).contains(e) <==> (sort_desc(s.drop_last()).contains(e) || e
                == s.last()));
            assert(s.contains(e) == (s.to_multiset().count(e) > 0));
            assert(s.drop_last().contains(e) == (s.drop_last().to_multiset().count(e) > 0));
        }
    }
}

/// Stability: when the input's candidate indices are strictly increasing,
/// entries with equal scores keep their candidate order in the output.
pub proof fn lemma_sort_desc_stable(s: Seq<(u64, usize)>)
    requires
        forall|i: int, j: int| 0 <= i < j < s.len() ==> (#[trigger] s[i]).1 < (#[trigger] s[j]).1,
    ensures
        forall|i: int, j: int|
            0 <= i < j < sort_desc(s).len() && (#[trigger] sort_desc(s)[i]).0 == (
            #[trigger] sort_desc(s)[j]).0 ==> sort_desc(s)[i].1 < sort_desc(s)[j].1,
    decreases s.len(),
{
    if s.len() > 0 {
        let prev = s.drop_last();
        let x = s.last();
        lemma_sort_desc_stable(prev);
        lemma_sort_desc_props(prev);
        let sorted = sort_desc(prev);
        lemma_insert_desc_shape(sorted, x);
        lemma_insert_desc_props(sorted, x);
        let p = insert_pos(sorted, x);
        let out = insert_desc(sorted, x);
        assert(sort_desc(s) == out);
        // Every already-sorted entry is an entry of the input prefix, so
        // its candidate index is below the new entry's.
        assert forall|q: int| 0 <= q < sorted.len() implies (#[trigger] sorted[q]).1 < x.1 by {
            assert(sorted.contains(sorted[q]));
            assert(prev.contains(sorted[q]));
            let w = choose|w: int| 0 <= w < prev.len() && prev[w] == sorted[q];
            assert(s[w] == sorted[q]);
            assert(s[s.len() - 1] == x);
        }
        assert forall|i: int, j: int|
            0 <= i < j < out.len() && (#[trigger] out[i]).0 == (#[trigger] out[j]).0 implies out[i].1
            < out[j].1 by {
            if i < p {
                assert(out[i] == sorted[i]);
            } else if i == p {
                assert(out[i] == x);
            } else {
                assert(out[i] == sorted[i - 1]);
            }
            if j < p {
                assert(out[j] == sorted[j]);
            } else if j == p {
                assert(out[j] == x);
            } else {
                assert(out[j] == sorted[j - 1]);
            }
            if j == p {
                // An equal-score entry before the insertion point would
                // contradict maximality only for *lower* scores; equal
                // scores before p are fine and keep their lower indices.
                assert(out[i] == sorted[i]);
                assert(sorted[i].1 < x.1);
            } else if i == p && j > p {
                // Entries after the insertion point score strictly lower.
                assert(x.0 > sorted[p].0);
                assert(sorted[p].0 >= sorted[j - 1].0);
                assert(false);
            }
        }
    }
}

/// Sort (score, candidate index) pairs by score descending, stably.
pub fn sort_pairs_desc(pairs: &Vec<(u64, usize)>) -> (r: Vec<(u64, usize)>)
    ensures
        r@ == sort_desc(pairs@),
{
    let mut out: Vec<(u64, usize)> = Vec::new();
    let mut i: usize = 0;
    proof {
        assert(pairs@.subrange(0, 0) =~= Seq::<(u64, usize)>::empty());
        assert(out@ =~= sort_desc(pairs@.subrange(0, 0)));
    }
    while i < pairs.len()
        invariant
            i <= pairs.len(),
            out@ == sort_desc(pairs@.subrange(0, i as int)),
        decreases pairs.len() - i,
    {
        let x = pairs[i];
        let ghost prefix = pairs@.subrange(0, i as int);
        let ghost next = pairs@.subrange(0, i + 1);
        proof {
            assert(next.drop_last() =~= prefix);
            assert(next.last() == pairs@[i as int]);
        }
        let mut p: usize = 0;
        while p < out.len() && !(x.0 > out[p as usize].0)
            invariant
                p <= out@.len(),
                out@ == sort_desc(prefix),
                x == pairs@[i as int],
                forall|q: int| 0 <= q < p ==> !(x.0 > (#[trigger] out@[q]).0),
            decreases out.len() - p,
        {
            p = p + 1;
        }
        proof {
            lemma_insert_pos_from_scan(out@, x, p as int);
        }
        let ghost old_out = out@;
        out.insert(p, x);
        proof {
            lemma_insert_desc_shape(old_out, x);
            assert(out@ =~= old_out.take(p as int) + seq![x] + old_out.skip(p as int));
            assert(out@ =~= insert_desc(old_out, x));
        }
        i = i + 1;
    }
    proof {
        assert(pairs@.subrange(0, pairs@.len() as int) =~= pairs@);
    }
    out
}

/// A scan that stops at the first strictly lower score finds `insert_pos`.
proof fn lemma_insert_pos_from_scan(s: Seq<(u64, usize)>, x: (u64, usize), p: int)
    requires
        0 <= p <= s.len(),
        forall|q: int| 0 <= q < p ==> !(x.0 > (#[trigger] s[q]).0),
        p < s.len() ==> x.0 > s[p].0,
    ensures
        insert_pos(s, x) == p,
    decreases s.len(),
{
    if s.len() == 0 {
    } else if x.0 > s[0].0 {
        assert(p == 0) by {
            if p > 0 {
                assert(!(x.0 > s[0].0));
            }
        }
    } else {
        assert(p > 0);
        assert forall|q: int| 0 <= q < p - 1 implies !(x.0 > (#[trigger] s.drop_first()[q]).0) by {
            assert(s.drop_first()[q] == s[q + 1]);
        }
        if p - 1 < s.drop_first().len() {
            assert(s.drop_first()[p - 1] == s[p]);
        }
        lemma_insert_pos_from_scan(s.drop_first(), x, p - 1);
    }
}


/// Truncation keeps the highest scores: every entry kept by a prefix of
/// the sorted list scores at least as high as every entry left out.
pub proof fn lemma_truncation_keeps_highest(s: Seq<(u64, usize)>, n: int)
    requires
        0 <= n <= sort_desc(s).len(),
    ensures
        forall|i: int, j: int|
            0 <= i < n <= j < sort_desc(s).len() ==> (#[trigger] sort_desc(s)[i]).0 >= (
            #[trigger] sort_desc(s)[j]).0,
{
    lemma_sort_desc_props(s);
}

} // verus!

