//! The subsequence relation on sequences of an equality-comparable element
//! type, together with the lemmas about it that the window search relies on.

use vstd::prelude::*;
use vstd::std_specs::cmp::PartialEqSpec;

verus! {

/// `q` occurs in `h` as a subsequence: `q` can be obtained from `h` by
/// deleting elements without reordering the remainder. An element `a` of `q`
/// matches an element `b` of `h` when `a.eq_spec(&b)` holds, which is what
/// `a == b` returns for a type whose `PartialEq` obeys its specification.
pub open spec fn is_subsequence_of<A: PartialEq>(q: Seq<A>, h: Seq<A>) -> bool
    decreases h.len(),
{
    if q.len() == 0 {
        true
    } else if h.len() == 0 {
        false
    } else {
        (q.first().eq_spec(&h.first()) && is_subsequence_of(q.drop_first(), h.drop_first()))
            || is_subsequence_of(q, h.drop_first())
    }
}

/// A subsequence of `h2` is a subsequence of any sequence ending in `h2`.
pub proof fn lemma_subseq_prepend<A: PartialEq>(q: Seq<A>, h1: Seq<A>, h2: Seq<A>)
    requires
        is_subsequence_of(q, h2),
    ensures
        is_subsequence_of(q, h1 + h2),
    decreases h1.len(),
{
    if q.len() == 0 {
    } else if h1.len() == 0 {
        assert(h1 + h2 =~= h2);
    } else {
        lemma_subseq_prepend(q, h1.drop_first(), h2);
        assert((h1 + h2).drop_first() =~= h1.drop_first() + h2);
    }
}

/// A subsequence of `h1` is a subsequence of any sequence starting with `h1`.
pub proof fn lemma_subseq_append<A: PartialEq>(q: Seq<A>, h1: Seq<A>, h2: Seq<A>)
    requires
        is_subsequence_of(q, h1),
    ensures
        is_subsequence_of(q, h1 + h2),
    decreases h1.len(),
{
    if q.len() == 0 {
    } else {
        assert((h1 + h2).drop_first() =~= h1.drop_first() + h2);
        if q.first().eq_spec(&h1.first()) && is_subsequence_of(q.drop_first(), h1.drop_first()) {
            lemma_subseq_append(q.drop_first(), h1.drop_first(), h2);
        } else {
            lemma_subseq_append(q, h1.drop_first(), h2);
        }
    }
}

/// A subsequence occurrence survives appending one matching pair.
pub proof fn lemma_subseq_push<A: PartialEq>(q: Seq<A>, h: Seq<A>, a: A, b: A)
    requires
        is_subsequence_of(q, h),
        a.eq_spec(&b),
    ensures
        is_subsequence_of(q.push(a), h.push(b)),
    decreases h.len(),
{
    if q.len() == 0 && h.len() == 0 {
        assert(q.push(a).drop_first() =~= q);
        assert(h.push(b).drop_first() =~= h);
    } else if q.len() == 0 {
        lemma_subseq_push(q, h.drop_first(), a, b);
        assert(h.push(b).drop_first() =~= h.drop_first().push(b));
    } else {
        assert(h.push(b).drop_first() =~= h.drop_first().push(b));
        if q.first().eq_spec(&h.first()) && is_subsequence_of(q.drop_first(), h.drop_first()) {
            lemma_subseq_push(q.drop_first(), h.drop_first(), a, b);
            assert(q.push(a).drop_first() =~= q.drop_first().push(a));
        } else {
            lemma_subseq_push(q, h.drop_first(), a, b);
        }
    }
}

/// Dropping the first element of `q` keeps it a subsequence.
pub proof fn lemma_subseq_drop_first<A: PartialEq>(q: Seq<A>, h: Seq<A>)
    requires
        q.len() > 0,
        is_subsequence_of(q, h),
    ensures
        is_subsequence_of(q.drop_first(), h),
    decreases h.len(),
{
    if q.first().eq_spec(&h.first()) && is_subsequence_of(q.drop_first(), h.drop_first()) {
    } else {
        lemma_subseq_drop_first(q, h.drop_first());
    }
}

/// Every occurrence of a non-empty `q` in `h` ends somewhere: there is a
/// position `p` matching the last element of `q`, with the rest of `q`
/// occurring before it.
pub proof fn lemma_subseq_last_match<A: PartialEq>(q: Seq<A>, h: Seq<A>) -> (p: int)
    requires
        q.len() > 0,
        is_subsequence_of(q, h),
    ensures
        0 <= p < h.len(),
        q.last().eq_spec(&h[p]),
        is_subsequence_of(q.drop_last(), h.take(p)),
    decreases h.len(),
{
    if q.first().eq_spec(&h.first()) && is_subsequence_of(q.drop_first(), h.drop_first()) {
        if q.len() == 1 {
            assert(is_subsequence_of(q.drop_last(), h.take(0)));
            0
        } else {
            let p1 = lemma_subseq_last_match(q.drop_first(), h.drop_first());
            assert(q.drop_first().last() == q.last());
            assert(h.drop_first()[p1] == h[p1 + 1]);
            assert(q.drop_last().first() == q.first());
            assert(q.drop_last().drop_first() =~= q.drop_first().drop_last());
            assert(h.take(p1 + 1).first() == h.first());
            assert(h.take(p1 + 1).drop_first() =~= h.drop_first().take(p1));
            p1 + 1
        }
    } else {
        let p1 = lemma_subseq_last_match(q, h.drop_first());
        assert(h.drop_first()[p1] == h[p1 + 1]);
        assert(h.take(p1 + 1).drop_first() =~= h.drop_first().take(p1));
        p1 + 1
    }
}

/// Dropping the last element of `q` keeps it a subsequence.
pub proof fn lemma_subseq_drop_last<A: PartialEq>(q: Seq<A>, h: Seq<A>)
    requires
        q.len() > 0,
        is_subsequence_of(q, h),
    ensures
        is_subsequence_of(q.drop_last(), h),
{
    let p = lemma_subseq_last_match(q, h);
    lemma_subseq_append(q.drop_last(), h.take(p), h.subrange(p, h.len() as int));
    assert(h.take(p) + h.subrange(p, h.len() as int) =~= h);
}

/// A subsequence of a window of `h` is a subsequence of any wider window.
pub proof fn lemma_subseq_widen<A: PartialEq>(q: Seq<A>, h: Seq<A>, f: int, t: int, f2: int, t2: int)
    requires
        0 <= f2 <= f <= t <= t2 <= h.len(),
        is_subsequence_of(q, h.subrange(f, t)),
    ensures
        is_subsequence_of(q, h.subrange(f2, t2)),
{
    lemma_subseq_append(q, h.subrange(f, t), h.subrange(t, t2));
    assert(h.subrange(f, t) + h.subrange(t, t2) =~= h.subrange(f, t2));
    lemma_subseq_prepend(q, h.subrange(f2, f), h.subrange(f, t2));
    assert(h.subrange(f2, f) + h.subrange(f, t2) =~= h.subrange(f2, t2));
}

/// One step of greedy matching is lossless: when the heads match they can be
/// consumed together, and when they do not, the head of `h` can be skipped.
pub proof fn lemma_subseq_greedy_step<A: PartialEq>(q: Seq<A>, h: Seq<A>)
    requires
        q.len() > 0,
        h.len() > 0,
    ensures
        q.first().eq_spec(&h.first()) ==> (is_subsequence_of(q, h) <==> is_subsequence_of(
            q.drop_first(),
            h.drop_first(),
        )),
        !q.first().eq_spec(&h.first()) ==> (is_subsequence_of(q, h) <==> is_subsequence_of(
            q,
            h.drop_first(),
        )),
{
    if q.first().eq_spec(&h.first()) && is_subsequence_of(q, h) && !is_subsequence_of(
        q.drop_first(),
        h.drop_first(),
    ) {
        lemma_subseq_drop_first(q, h.drop_first());
    }
}

} // verus!
