//! The shortest-window search: the inclusive index range of the shortest
//! contiguous window of a history sequence that contains a query sequence as
//! a subsequence.

use vstd::prelude::*;
use vstd::std_specs::cmp::PartialEqSpec;

use crate::subseq::is_subsequence_of;
use crate::subseq::lemma_subseq_last_match;
use crate::subseq::lemma_subseq_drop_last;
use crate::subseq::lemma_subseq_push;
use crate::subseq::lemma_subseq_widen;
use crate::subseq::lemma_subseq_greedy_step;

verus! {

/// The inclusive window `h[f..=t]` exists and contains `q` as a subsequence.
pub open spec fn spans_window<A: PartialEq>(q: Seq<A>, h: Seq<A>, f: int, t: int) -> bool {
    &&& 0 <= f <= t < h.len()
    &&& is_subsequence_of(q, h.subrange(f, t + 1))
}

/// A recorded index pair lies in order and below the scan bound `i`.
spec fn pair_bounds(entry: Option<(usize, usize)>, i: int) -> bool {
    match entry {
        None => true,
        Some((s, e)) => s <= e < i,
    }
}

/// What the frontier records for query position `k` once the scan has
/// consumed `h[..i]`: nothing when `q[..=k]` has not occurred yet, and
/// otherwise a witness window whose start is as late as any occurrence of
/// `q[..=k]` in `h[..i]` allows.
spec fn entry_ok<A: PartialEq>(
    q: Seq<A>,
    h: Seq<A>,
    k: int,
    entry: Option<(usize, usize)>,
    i: int,
) -> bool {
    match entry {
        None => !is_subsequence_of(q.take(k + 1), h.take(i)),
        Some((s, e)) => {
            &&& s <= e < i
            &&& is_subsequence_of(q.take(k + 1), h.subrange(s as int, e + 1))
            &&& forall|s2: int|
                s < s2 <= i ==> !(#[trigger] is_subsequence_of(q.take(k + 1), h.subrange(s2, i)))
        },
    }
}

/// What the best candidate records once the scan has consumed `h[..i]`:
/// nothing while `q` has not occurred yet, and otherwise a window of `q`
/// that no window inside `h[..i]` beats, with the earliest end among the
/// windows of that least length.
spec fn best_ok<A: PartialEq>(
    q: Seq<A>,
    h: Seq<A>,
    best: Option<(usize, usize)>,
    i: int,
) -> bool {
    match best {
        None => !is_subsequence_of(q, h.take(i)),
        Some((bf, bt)) => {
            &&& bf <= bt < i
            &&& is_subsequence_of(q, h.subrange(bf as int, bt + 1))
            &&& forall|f: int, t: int|
                #[trigger] spans_window(q, h, f, t) && t < i ==> bt - bf <= t - f && (t - f
                    == bt - bf ==> bt <= t)
        },
    }
}

/// A fresh match of `q[0]` at position `i` is the latest possible start of
/// an occurrence of `q[..=0]` seen so far.
proof fn lemma_entry_update_zero<A: PartialEq>(q: Seq<A>, h: Seq<A>, i: usize)
    requires
        q.len() > 0,
        i < h.len(),
        q[0].eq_spec(&h[i as int]),
    ensures
        entry_ok(q, h, 0, Some((i, i)), i + 1),
{
    let q1 = q.take(1);
    let w = h.subrange(i as int, i + 1);
    assert(q1.len() == 1);
    assert(w.len() == 1);
    assert(q1.first() == q[0]);
    assert(w.first() == h[i as int]);
    assert(is_subsequence_of(q1.drop_first(), w.drop_first()));
    assert(is_subsequence_of(q1, w));
    assert forall|s2: int| i < s2 <= i + 1 implies !(#[trigger] is_subsequence_of(
        q1,
        h.subrange(s2, i + 1),
    )) by {
        assert(h.subrange(s2, i + 1).len() == 0);
    }
}

/// Extending the recorded occurrence of `q[..k]` with a match of `q[k]` at
/// position `i` yields the record for `q[..=k]`: it is a valid occurrence,
/// and no occurrence of `q[..=k]` in `h[..=i]` starts later.
proof fn lemma_entry_update_step<A: PartialEq>(
    q: Seq<A>,
    h: Seq<A>,
    k: usize,
    i: usize,
    s: usize,
    e: usize,
    olde: Option<(usize, usize)>,
)
    requires
        0 < k < q.len(),
        i < h.len(),
        q[k as int].eq_spec(&h[i as int]),
        entry_ok(q, h, k - 1, Some((s, e)), i as int),
        entry_ok(q, h, k as int, olde, i as int),
    ensures
        entry_ok(q, h, k as int, Some((s, i)), i + 1),
{
    let qk = q.take(k as int);
    let qk1 = q.take(k + 1);
    assert(qk1.last() == q[k as int]);
    assert(qk1.drop_last() =~= qk);
    // the new entry is a valid occurrence
    lemma_subseq_widen(qk, h, s as int, e + 1, s as int, i as int);
    lemma_subseq_push(qk, h.subrange(s as int, i as int), q[k as int], h[i as int]);
    assert(qk.push(q[k as int]) =~= qk1);
    assert(h.subrange(s as int, i as int).push(h[i as int]) =~= h.subrange(s as int, i + 1));
    // no occurrence starts later
    assert forall|s2: int| s < s2 <= i + 1 implies !(#[trigger] is_subsequence_of(
        qk1,
        h.subrange(s2, i + 1),
    )) by {
        if is_subsequence_of(qk1, h.subrange(s2, i + 1)) {
            let w = h.subrange(s2, i + 1);
            let p = lemma_subseq_last_match(qk1, w);
            assert(w[p] == h[s2 + p]);
            assert(w.take(p) =~= h.subrange(s2, s2 + p));
            if s2 + p == i {
                // an occurrence of q[..k] would start after the recorded one
                assert(is_subsequence_of(qk, h.subrange(s2, i as int)));
                assert(false);
            } else {
                // the whole of q[..=k] occurs before position i
                lemma_subseq_push(qk, h.subrange(s2, s2 + p), q[k as int], h[s2 + p]);
                assert(h.subrange(s2, s2 + p).push(h[s2 + p]) =~= h.subrange(s2, s2 + p + 1));
                lemma_subseq_widen(qk1, h, s2, s2 + p + 1, s2, i as int);
                match olde {
                    None => {
                        lemma_subseq_widen(qk1, h, s2, i as int, 0, i as int);
                        assert(h.subrange(0, i as int) =~= h.take(i as int));
                        assert(false);
                    },
                    Some((s0, e0)) => {
                        // the old entry for k starts no later than the one for k - 1
                        lemma_subseq_drop_last(qk1, h.subrange(s0 as int, e0 + 1));
                        lemma_subseq_widen(qk, h, s0 as int, e0 + 1, s0 as int, i as int);
                        assert(s0 <= s);
                        assert(false);
                    },
                }
            }
        }
    }
}

/// When `q[k]` matches at `i` but `q[..k]` has not occurred yet, `q[..=k]`
/// has not occurred either, so the frontier stays empty at `k`.
proof fn lemma_entry_update_none<A: PartialEq>(q: Seq<A>, h: Seq<A>, k: usize, i: usize)
    requires
        0 < k < q.len(),
        i < h.len(),
        entry_ok(q, h, k - 1, None, i as int),
    ensures
        entry_ok(q, h, k as int, None, i + 1),
{
    let qk = q.take(k as int);
    let qk1 = q.take(k + 1);
    if is_subsequence_of(qk1, h.take(i + 1)) {
        let p = lemma_subseq_last_match(qk1, h.take(i + 1));
        assert(qk1.drop_last() =~= qk);
        assert(h.take(i + 1).take(p) =~= h.subrange(0, p));
        lemma_subseq_widen(qk, h, 0, p, 0, i as int);
        assert(h.subrange(0, i as int) =~= h.take(i as int));
        assert(false);
    }
}

/// When `q[k]` does not match at `i`, the record for `k` carries over to the
/// extended scan bound unchanged.
proof fn lemma_entry_keep<A: PartialEq>(
    q: Seq<A>,
    h: Seq<A>,
    k: usize,
    i: usize,
    olde: Option<(usize, usize)>,
)
    requires
        k < q.len(),
        i < h.len(),
        !q[k as int].eq_spec(&h[i as int]),
        entry_ok(q, h, k as int, olde, i as int),
    ensures
        entry_ok(q, h, k as int, olde, i + 1),
{
    let qk = q.take(k as int);
    let qk1 = q.take(k + 1);
    assert(qk1.last() == q[k as int]);
    assert(qk1.drop_last() =~= qk);
    match olde {
        None => {
            if is_subsequence_of(qk1, h.take(i + 1)) {
                let p = lemma_subseq_last_match(qk1, h.take(i + 1));
                assert(h.take(i + 1)[p] == h[p]);
                assert(p != i);
                assert(h.take(i + 1).take(p) =~= h.subrange(0, p));
                lemma_subseq_push(qk, h.subrange(0, p), q[k as int], h[p]);
                assert(qk.push(q[k as int]) =~= qk1);
                assert(h.subrange(0, p).push(h[p]) =~= h.subrange(0, p + 1));
                lemma_subseq_widen(qk1, h, 0, p + 1, 0, i as int);
                assert(h.subrange(0, i as int) =~= h.take(i as int));
                assert(false);
            }
        },
        Some((s, e)) => {
            assert forall|s2: int| s < s2 <= i + 1 implies !(#[trigger] is_subsequence_of(
                qk1,
                h.subrange(s2, i + 1),
            )) by {
                if is_subsequence_of(qk1, h.subrange(s2, i + 1)) {
                    let w = h.subrange(s2, i + 1);
                    let p = lemma_subseq_last_match(qk1, w);
                    assert(w[p] == h[s2 + p]);
                    assert(s2 + p != i);
                    assert(w.take(p) =~= h.subrange(s2, s2 + p));
                    lemma_subseq_push(qk, h.subrange(s2, s2 + p), q[k as int], h[s2 + p]);
                    assert(qk.push(q[k as int]) =~= qk1);
                    assert(h.subrange(s2, s2 + p).push(h[s2 + p]) =~= h.subrange(
                        s2,
                        s2 + p + 1,
                    ));
                    lemma_subseq_widen(qk1, h, s2, s2 + p + 1, s2, i as int);
                    assert(false);
                }
            }
        },
    }
}

/// Weighing a freshly completed candidate against the best so far keeps the
/// best window as short as any window the scan has passed, and earliest by
/// end among the shortest.
proof fn lemma_best_update<A: PartialEq>(
    q: Seq<A>,
    h: Seq<A>,
    i: usize,
    s: usize,
    prev: Option<(usize, usize)>,
    next: Option<(usize, usize)>,
)
    requires
        q.len() > 0,
        i < h.len(),
        entry_ok(q, h, q.len() - 1, Some((s, i)), i + 1),
        best_ok(q, h, prev, i as int),
        next == (match prev {
            None => Some((s, i)),
            Some((cf, ct)) => if i - s < ct - cf {
                Some((s, i))
            } else {
                Some((cf, ct))
            },
        }),
    ensures
        best_ok(q, h, next, i + 1),
{
    let qm = q.take(q.len() - 1 + 1);
    assert(qm =~= q);
    assert(is_subsequence_of(q, h.subrange(s as int, i + 1)));
    let (bf, bt) = next->Some_0;
    assert forall|f: int, t: int| #[trigger] spans_window(q, h, f, t) && t < i + 1 implies bt
        - bf <= t - f && (t - f == bt - bf ==> bt <= t) by {
        if t == i {
            let w = h.subrange(f, i + 1);
            let p = lemma_subseq_last_match(q, w);
            assert(w[p] == h[f + p]);
            if f + p < i {
                // the occurrence also fits strictly before position i
                assert(w.take(p) =~= h.subrange(f, f + p));
                lemma_subseq_push(q.drop_last(), h.subrange(f, f + p), q.last(), h[f + p]);
                assert(q.drop_last().push(q.last()) =~= q);
                assert(h.subrange(f, f + p).push(h[f + p]) =~= h.subrange(f, f + p + 1));
                assert(spans_window(q, h, f, f + p));
                match prev {
                    None => {
                        lemma_subseq_widen(q, h, f, f + p + 1, 0, i as int);
                        assert(h.subrange(0, i as int) =~= h.take(i as int));
                        assert(false);
                    },
                    Some((cf, ct)) => {},
                }
            } else {
                // the occurrence ends at i, so it starts no later than s
                assert(is_subsequence_of(qm, h.subrange(f, i + 1)));
                assert(f <= s);
            }
        } else {
            match prev {
                None => {
                    lemma_subseq_widen(q, h, f, t + 1, 0, i as int);
                    assert(h.subrange(0, i as int) =~= h.take(i as int));
                    assert(false);
                },
                Some((cf, ct)) => {},
            }
        }
    }
}

/// When the query's last element does not match at `i`, no new window ends
/// there, and the best so far stays best up to the extended scan bound.
proof fn lemma_best_keep_nomatch<A: PartialEq>(
    q: Seq<A>,
    h: Seq<A>,
    i: usize,
    prev: Option<(usize, usize)>,
)
    requires
        q.len() > 0,
        i < h.len(),
        !q.last().eq_spec(&h[i as int]),
        best_ok(q, h, prev, i as int),
    ensures
        best_ok(q, h, prev, i + 1),
{
    match prev {
        None => {
            if is_subsequence_of(q, h.take(i + 1)) {
                let p = lemma_subseq_last_match(q, h.take(i + 1));
                assert(h.take(i + 1)[p] == h[p]);
                assert(p != i);
                assert(h.take(i + 1).take(p) =~= h.subrange(0, p));
                lemma_subseq_push(q.drop_last(), h.subrange(0, p), q.last(), h[p]);
                assert(q.drop_last().push(q.last()) =~= q);
                assert(h.subrange(0, p).push(h[p]) =~= h.subrange(0, p + 1));
                lemma_subseq_widen(q, h, 0, p + 1, 0, i as int);
                assert(h.subrange(0, i as int) =~= h.take(i as int));
                assert(false);
            }
        },
        Some((cf, ct)) => {
            assert forall|f: int, t: int| #[trigger] spans_window(q, h, f, t) && t < i + 1
                implies ct - cf <= t - f && (t - f == ct - cf ==> ct <= t) by {
                if t == i {
                    let w = h.subrange(f, i + 1);
                    let p = lemma_subseq_last_match(q, w);
                    assert(w[p] == h[f + p]);
                    assert(f + p != i);
                    assert(w.take(p) =~= h.subrange(f, f + p));
                    lemma_subseq_push(q.drop_last(), h.subrange(f, f + p), q.last(), h[
                        f + p
                    ]);
                    assert(q.drop_last().push(q.last()) =~= q);
                    assert(h.subrange(f, f + p).push(h[f + p]) =~= h.subrange(f, f + p + 1));
                    assert(spans_window(q, h, f, f + p));
                }
            }
        },
    }
}

/// When the query has no occurrence in `h[..=i]` at all, the best so far
/// (necessarily empty) carries over to the extended scan bound.
proof fn lemma_best_keep_dead<A: PartialEq>(
    q: Seq<A>,
    h: Seq<A>,
    i: usize,
    prev: Option<(usize, usize)>,
)
    requires
        q.len() > 0,
        i < h.len(),
        !is_subsequence_of(q, h.take(i + 1)),
        best_ok(q, h, prev, i as int),
    ensures
        best_ok(q, h, prev, i + 1),
{
    match prev {
        None => {},
        Some((cf, ct)) => {
            lemma_subseq_widen(q, h, cf as int, ct + 1, 0, i + 1);
            assert(h.subrange(0, i + 1) =~= h.take(i + 1));
            assert(false);
        },
    }
}

/// The inclusive index range of the shortest window of `history` that
/// contains `query` as a subsequence, or `None` when there is none.
///
/// An empty `history` yields `None`, and an empty `query` with a non-empty
/// `history` yields `Some((0, 0))` by convention. For an element type whose
/// `PartialEq` obeys its specification, the returned window is valid, no
/// strictly shorter window contains the query, and among the windows of the
/// least length the returned one ends earliest, which makes it the first one
/// a left-to-right scan completes.
pub fn span<A: PartialEq>(query: &Vec<A>, history: &Vec<A>) -> (r: Option<(usize, usize)>)
    ensures
        history@.len() == 0 ==> r is None,
        query@.len() == 0 && history@.len() > 0 ==> r == Some((0usize, 0usize)),
        r matches Some(w) ==> w.0 <= w.1 < history@.len(),
        A::obeys_eq_spec() ==> match r {
            Some(w) => {
                &&& spans_window(query@, history@, w.0 as int, w.1 as int)
                &&& forall|f: int, t: int|
                    #[trigger] spans_window(query@, history@, f, t) ==> w.1 - w.0 <= t - f
                &&& forall|f: int, t: int|
                    #[trigger] spans_window(query@, history@, f, t) && t - f == w.1 - w.0
                        ==> w.1 <= t
            },
            None => query@.len() == 0 || !is_subsequence_of(query@, history@),
        },
        A::obeys_eq_spec() && query@.len() > 0 && is_subsequence_of(query@, history@)
            ==> r is Some,
{
    let m = query.len();
    let n = history.len();
    if n == 0 {
        proof {
            if query@.len() > 0 {
                assert(!is_subsequence_of(query@, history@));
            }
        }
        return None;
    }
    if m == 0 {
        proof {
            if A::obeys_eq_spec() {
                assert(is_subsequence_of(query@, history@.subrange(0, 1)));
                assert forall|f: int, t: int| #[trigger] spans_window(query@, history@, f, t)
                    implies 0 <= t - f && (t - f == 0 ==> 0 <= t) by {}
            }
        }
        return Some((0, 0));
    }

    let mut starting_at: Vec<Option<(usize, usize)>> = Vec::new();
    let mut j: usize = 0;
    while j < m
        invariant
            j <= m,
            starting_at@.len() == j,
            forall|k2: int| 0 <= k2 < j ==> starting_at@[k2] is None,
        decreases m - j,
    {
        starting_at.push(None);
        j += 1;
    }

    let mut best: Option<(usize, usize)> = None;
    let mut i: usize = 0;
    while i < n
        invariant
            m == query@.len(),
            n == history@.len(),
            0 < m,
            i <= n,
            starting_at@.len() == m,
            forall|k2: int| 0 <= k2 < m ==> pair_bounds(#[trigger] starting_at@[k2], i as int),
            pair_bounds(best, i as int),
            A::obeys_eq_spec() ==> forall|k2: int|
                0 <= k2 < m ==> entry_ok(query@, history@, k2, #[trigger] starting_at@[k2], i as int),
            A::obeys_eq_spec() ==> best_ok(query@, history@, best, i as int),
        decreases n - i,
    {
        let ghost prev_entries = starting_at@;
        let mut k = m;
        while k > 0
            invariant
                m == query@.len(),
                n == history@.len(),
                0 < m,
                i < n,
                k <= m,
                starting_at@.len() == m,
                forall|k2: int| 0 <= k2 < m ==> pair_bounds(#[trigger] starting_at@[k2], i + 1),
                pair_bounds(best, i + 1),
                forall|k2: int| 0 <= k2 < k ==> starting_at@[k2] == prev_entries[k2],
                A::obeys_eq_spec() ==> forall|k2: int|
                    0 <= k2 < k ==> entry_ok(query@, history@, k2, #[trigger] prev_entries[k2], i as int),
                A::obeys_eq_spec() ==> forall|k2: int|
                    k <= k2 < m ==> entry_ok(query@, history@, k2, #[trigger] starting_at@[k2], i + 1),
                A::obeys_eq_spec() ==> (if k == m {
                    best_ok(query@, history@, best, i as int)
                } else {
                    best_ok(query@, history@, best, i + 1)
                }),
            decreases k,
        {
            k -= 1;
            if query[k] == history[i] {
                let entry = if k == 0 {
                    Some((i, i))
                } else {
                    match starting_at[k - 1] {
                        None => None,
                        Some((s, _)) => Some((s, i)),
                    }
                };
                starting_at.set(k, entry);
                proof {
                    if A::obeys_eq_spec() {
                        if k == 0 {
                            lemma_entry_update_zero(query@, history@, i);
                        } else {
                            match prev_entries[k - 1] {
                                Some((s, e)) => lemma_entry_update_step(
                                    query@,
                                    history@,
                                    k,
                                    i,
                                    s,
                                    e,
                                    prev_entries[k as int],
                                ),
                                None => lemma_entry_update_none(query@, history@, k, i),
                            }
                        }
                    }
                }
                if k + 1 == m {
                    if let Some((from, to)) = starting_at[k] {
                        let ghost prev_best = best;
                        best = match best {
                            None => Some((from, to)),
                            Some((currfrom, currto)) => {
                                if to - from < currto - currfrom {
                                    Some((from, to))
                                } else {
                                    Some((currfrom, currto))
                                }
                            },
                        };
                        proof {
                            if A::obeys_eq_spec() {
                                lemma_best_update(query@, history@, i, from, prev_best, best);
                            }
                        }
                    } else {
                        proof {
                            if A::obeys_eq_spec() {
                                assert(query@.take(m - 1 + 1) =~= query@);
                                lemma_best_keep_dead(query@, history@, i, best);
                            }
                        }
                    }
                }
            } else {
                proof {
                    if A::obeys_eq_spec() {
                        lemma_entry_keep(query@, history@, k, i, prev_entries[k as int]);
                        if k + 1 == m {
                            assert(query@.last() == query@[k as int]);
                            lemma_best_keep_nomatch(query@, history@, i, best);
                        }
                    }
                }
            }
        }
        i += 1;
    }
    proof {
        if A::obeys_eq_spec() {
            assert(history@.take(n as int) =~= history@);
            match best {
                None => {},
                Some((bf, bt)) => {
                    assert(spans_window(query@, history@, bf as int, bt as int));
                },
            }
        }
    }
    best
}

/// Whether `sub` occurs in `main_seq` as a subsequence, decided by greedy
/// matching: each element of `sub` consumes `main_seq` up to and including
/// its first remaining match.
pub fn is_subsequence<A: PartialEq>(sub: &[A], main_seq: &[A]) -> (r: bool)
    ensures
        A::obeys_eq_spec() ==> r == is_subsequence_of(sub@, main_seq@),
{
    let mut si: usize = 0;
    let mut mi: usize = 0;
    proof {
        assert(sub@.skip(0) =~= sub@);
        assert(main_seq@.skip(0) =~= main_seq@);
    }
    while si < sub.len() && mi < main_seq.len()
        invariant
            si <= sub@.len(),
            mi <= main_seq@.len(),
            A::obeys_eq_spec() ==> (is_subsequence_of(sub@, main_seq@) <==> is_subsequence_of(
                sub@.skip(si as int),
                main_seq@.skip(mi as int),
            )),
        decreases main_seq@.len() - mi,
    {
        if sub[si] == main_seq[mi] {
            proof {
                if A::obeys_eq_spec() {
                    lemma_subseq_greedy_step(sub@.skip(si as int), main_seq@.skip(mi as int));
                    assert(sub@.skip(si as int).drop_first() =~= sub@.skip(si + 1));
                    assert(main_seq@.skip(mi as int).drop_first() =~= main_seq@.skip(mi + 1));
                }
            }
            si += 1;
        } else {
            proof {
                if A::obeys_eq_spec() {
                    lemma_subseq_greedy_step(sub@.skip(si as int), main_seq@.skip(mi as int));
                    assert(main_seq@.skip(mi as int).drop_first() =~= main_seq@.skip(mi + 1));
                }
            }
        }
        mi += 1;
    }
    si == sub.len()
}

} // verus!
