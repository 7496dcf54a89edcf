//! Selection of the best-ranked `k` positions of a score table.
//!
//! A candidate ranks before another when its score is higher, or when the
//! scores are equal and its position is lower. This is a strict total order
//! on positions, so the best `k` positions, listed best-first, are unique.
use vstd::prelude::*;

verus! {

/// Candidate `a` ranks before candidate `b` under the scores `s`.
pub open spec fn ranks_before(s: Seq<u64>, a: int, b: int) -> bool {
    s[a] > s[b] || (s[a] == s[b] && a < b)
}

/// `r` lists positions below `m`, best-first without repetition, and every
/// position below `m` that `r` leaves out ranks after all of `r`.
pub open spec fn leads_among(s: Seq<u64>, m: int, r: Seq<usize>) -> bool {
    &&& forall|q: int| 0 <= q < r.len() ==> r[q] < m
    &&& forall|a: int, b: int|
        0 <= a < b < r.len() ==> ranks_before(s, #[trigger] r[a] as int, #[trigger] r[b] as int)
    &&& forall|j: usize|
        j < m && !r.contains(j) ==> forall|q: int|
            0 <= q < r.len() ==> ranks_before(s, #[trigger] r[q] as int, j as int)
}

/// `r` is the best `k` positions of the whole table `s`, best-first.
pub open spec fn is_top_k(s: Seq<u64>, k: nat, r: Seq<usize>) -> bool {
    r.len() == k && leads_among(s, s.len() as int, r)
}

/// Positions of the `k` highest scores, best-first; equal scores are ordered
/// by position. The positions are first partitioned so that the best `k`
/// come first, in no particular order; then only those `k` are sorted.
pub fn top_k_indices(scores: &Vec<u64>, k: usize) -> (r: Vec<usize>)
    requires
        k <= scores.len(),
    ensures
        is_top_k(scores@, k as nat, r@),
{
    let n = scores.len();
    let mut p: Vec<usize> = Vec::new();
    let mut i: usize = 0;
    while i < n
        invariant
            n == scores.len(),
            i <= n,
            p.len() == i,
            forall|q: int| 0 <= q < i ==> #[trigger] p@[q] == q,
        decreases n - i,
    {
        p.push(i);
        i += 1;
    }
    proof {
        assert forall|v: usize| v < n implies #[trigger] p@.contains(v) by {
            assert(p@[v as int] == v);
        }
    }
    if k < n {
        partition_top(scores, &mut p, k);
    }
    let ghost full = p@;
    p.truncate(k);
    proof {
        assert(p@ =~= full.take(k as int));
        assert forall|a: int, b: int| 0 <= a < p.len() && 0 <= b < p.len() && a != b implies p@[a]
            != p@[b] by {
            assert(p@[a] == full[a] && p@[b] == full[b]);
        }
    }
    let r = sort_by_rank(scores, &p);
    proof {
        assert forall|j: usize| j < n && !r@.contains(j) implies forall|q: int|
            0 <= q < r.len() ==> ranks_before(scores@, #[trigger] r@[q] as int, j as int) by {
            assert(full.contains(j));
            let b = choose|b: int| 0 <= b < full.len() && full[b] == j;
            if b < k {
                assert(p@[b] == j);
                assert(r@.contains(p@[b]));
            }
            assert forall|q: int| 0 <= q < r.len() implies ranks_before(
                scores@,
                #[trigger] r@[q] as int,
                j as int,
            ) by {
                assert(p@.contains(r@[q]));
                let a = choose|a: int| 0 <= a < p.len() && p@[a] == r@[q];
                assert(full[a] == r@[q]);
                if k < n {
                    assert(ranks_before(scores@, full[a] as int, full[b] as int));
                }
            }
        }
    }
    r
}

/// Two entries of a leading sequence are never the same position.
pub proof fn lemma_leads_distinct(s: Seq<u64>, m: int, r: Seq<usize>)
    requires
        leads_among(s, m, r),
    ensures
        r.no_duplicates(),
{
    assert forall|a: int, b: int| 0 <= a < r.len() && 0 <= b < r.len() && a != b implies r[a]
        != r[b] by {
        if a < b {
            assert(ranks_before(s, r[a] as int, r[b] as int));
        } else {
            assert(ranks_before(s, r[b] as int, r[a] as int));
        }
    }
}

/// The selection holds exactly `k` distinct positions, each a position of the
/// table.
pub proof fn lemma_top_k_members(s: Seq<u64>, k: nat, r: Seq<usize>)
    requires
        is_top_k(s, k, r),
    ensures
        r.len() == k,
        r.no_duplicates(),
        forall|q: int| 0 <= q < k ==> #[trigger] r[q] < s.len(),
{
    lemma_leads_distinct(s, s.len() as int, r);
}

/// No candidate left out of the selection scores higher than one kept.
pub proof fn lemma_top_k_scores(s: Seq<u64>, k: nat, r: Seq<usize>)
    requires
        is_top_k(s, k, r),
    ensures
        forall|q: int, j: usize|
            #![trigger r[q], r.contains(j)]
            0 <= q < k && j < s.len() && !r.contains(j) ==> s[r[q] as int] >= s[j as int],
{
    assert forall|q: int, j: usize|
        #![trigger r[q], r.contains(j)]
        0 <= q < k && j < s.len() && !r.contains(j) implies s[r[q] as int] >= s[j as int] by {
        assert(ranks_before(s, r[q] as int, j as int));
    }
}

/// Where two best-first selections agree before place `i`, the one at `i`
/// does not rank before the other at `i`.
proof fn lemma_not_ahead(s: Seq<u64>, k: nat, r1: Seq<usize>, r2: Seq<usize>, i: int)
    requires
        is_top_k(s, k, r1),
        is_top_k(s, k, r2),
        0 <= i < k,
        forall|q: int| 0 <= q < i ==> r1[q] == r2[q],
    ensures
        !ranks_before(s, r1[i] as int, r2[i] as int),
{
    let a = r1[i];
    if ranks_before(s, a as int, r2[i] as int) {
        if r2.contains(a) {
            let j = choose|j: int| 0 <= j < r2.len() && r2[j] == a;
            if j < i {
                assert(r1[j] == a);
                assert(ranks_before(s, r1[j] as int, r1[i] as int));
            } else if j > i {
                assert(ranks_before(s, r2[i] as int, r2[j] as int));
            }
        } else {
            assert(ranks_before(s, r2[i] as int, a as int));
        }
    }
}

proof fn lemma_agree_upto(s: Seq<u64>, k: nat, r1: Seq<usize>, r2: Seq<usize>, i: int)
    requires
        is_top_k(s, k, r1),
        is_top_k(s, k, r2),
        0 <= i <= k,
    ensures
        forall|q: int| 0 <= q < i ==> r1[q] == r2[q],
    decreases i,
{
    if i > 0 {
        lemma_agree_upto(s, k, r1, r2, i - 1);
        lemma_not_ahead(s, k, r1, r2, i - 1);
        lemma_not_ahead(s, k, r2, r1, i - 1);
        assert(r1[i - 1] == r2[i - 1]);
    }
}

/// The best `k` positions, best-first, are unique: any two selections of the
/// same size from the same scores are the same sequence, so repeated calls on
/// the same input give the same output.
pub proof fn lemma_top_k_unique(s: Seq<u64>, k: nat, r1: Seq<usize>, r2: Seq<usize>)
    requires
        is_top_k(s, k, r1),
        is_top_k(s, k, r2),
    ensures
        r1 == r2,
{
    lemma_agree_upto(s, k, r1, r2, k as int);
    assert(r1 =~= r2);
}

/// A smaller selection is the start of a larger one from the same scores; in
/// particular every position it holds is in the larger one.
pub proof fn lemma_top_k_prefix(s: Seq<u64>, k1: nat, k2: nat, r1: Seq<usize>, r2: Seq<usize>)
    requires
        k1 <= k2,
        is_top_k(s, k1, r1),
        is_top_k(s, k2, r2),
    ensures
        r1 == r2.take(k1 as int),
        forall|q: int| 0 <= q < k1 ==> r2.contains(#[trigger] r1[q]),
{
    let t = r2.take(k1 as int);
    assert forall|j: usize| j < s.len() && !t.contains(j) implies forall|q: int|
        0 <= q < t.len() ==> ranks_before(s, #[trigger] t[q] as int, j as int) by {
        assert forall|q: int| 0 <= q < t.len() implies ranks_before(s, #[trigger] t[q] as int, j as int) by {
            assert(t[q] == r2[q]);
            if r2.contains(j) {
                let b = choose|b: int| 0 <= b < r2.len() && r2[b] == j;
                if b < k1 {
                    assert(t[b] == j);
                }
                assert(ranks_before(s, r2[q] as int, r2[b] as int));
            }
        }
    }
    lemma_top_k_unique(s, k1, r1, t);
    assert forall|q: int| 0 <= q < k1 implies r2.contains(#[trigger] r1[q]) by {
        assert(r2[q] == r1[q]);
    }
}

/// Selecting nothing gives the empty sequence.
pub proof fn lemma_top_k_none(s: Seq<u64>, r: Seq<usize>)
    requires
        is_top_k(s, 0, r),
    ensures
        r == Seq::<usize>::empty(),
{
    assert(r =~= Seq::<usize>::empty());
}

/// Selecting all but one position leaves out exactly one, and it ranks after
/// every other position.
pub proof fn lemma_top_k_all_but_one(s: Seq<u64>, r: Seq<usize>)
    requires
        0 < s.len() <= usize::MAX,
        is_top_k(s, (s.len() - 1) as nat, r),
    ensures
        exists|j: usize| j < s.len() && !r.contains(j),
        forall|j: usize|
            j < s.len() && !r.contains(j) ==> forall|m: int|
                0 <= m < s.len() && m != j ==> ranks_before(s, m, j as int),
        forall|j1: usize, j2: usize|
            j1 < s.len() && j2 < s.len() && !r.contains(j1) && !r.contains(j2) ==> j1 == j2,
{
    let n = s.len() as int;
    lemma_leads_distinct(s, n, r);
    let ri = r.map_values(|x: usize| x as int);
    assert(ri.no_duplicates()) by {
        assert forall|a: int, b: int| 0 <= a < ri.len() && 0 <= b < ri.len() && a != b implies ri[a]
            != ri[b] by {
            assert(r[a] != r[b]);
        }
    }
    ri.unique_seq_to_set();
    vstd::set_lib::lemma_int_range(0, n);
    let range = vstd::set_lib::set_int_range(0, n);
    if forall|j: usize| j < s.len() ==> r.contains(j) {
        assert(range.subset_of(ri.to_set())) by {
            assert forall|x: int| range.contains(x) implies ri.to_set().contains(x) by {
                let j = x as usize;
                assert(r.contains(j));
                let b = choose|b: int| 0 <= b < r.len() && r[b] == j;
                assert(ri[b] == x);
                assert(ri.contains(x));
                assert(ri.to_set().contains(x));
            }
        }
        vstd::set_lib::lemma_len_subset(range, ri.to_set());
        assert(false);
    }
    assert forall|j: usize| j < s.len() && !r.contains(j) implies forall|m: int|
        0 <= m < s.len() && m != j ==> ranks_before(s, m, j as int) by {
        assert forall|m: int| 0 <= m < s.len() && m != j implies ranks_before(s, m, j as int) by {
            let mu = m as usize;
            if r.contains(mu) {
                let b = choose|b: int| 0 <= b < r.len() && r[b] == mu;
                assert(ranks_before(s, r[b] as int, j as int));
            } else {
                let rest = range.remove(j as int).remove(m);
                assert(ri.to_set().subset_of(rest)) by {
                    assert forall|x: int| ri.to_set().contains(x) implies rest.contains(x) by {
                        assert(ri.contains(x));
                        let b = choose|b: int| 0 <= b < ri.len() && ri[b] == x;
                        assert(r[b] as int == x);
                        assert(r[b] != j);
                        assert(r[b] != mu);
                    }
                }
                assert(range.contains(j as int));
                assert(range.remove(j as int).contains(m));
                assert(rest.len() == n - 2);
                vstd::set_lib::lemma_len_subset(ri.to_set(), rest);
                assert(false);
            }
        }
    }
    assert forall|j1: usize, j2: usize|
        j1 < s.len() && j2 < s.len() && !r.contains(j1) && !r.contains(j2) implies j1 == j2 by {
        if j1 != j2 {
            assert(ranks_before(s, j1 as int, j2 as int));
            assert(ranks_before(s, j2 as int, j1 as int));
        }
    }
}

/// Every entry of `p` before place `m` ranks before every entry from `m` on.
pub open spec fn splits_at(s: Seq<u64>, p: Seq<usize>, m: int) -> bool {
    forall|a: int, b: int|
        0 <= a < m <= b < p.len() ==> ranks_before(s, #[trigger] p[a] as int, #[trigger] p[b] as int)
}

/// `p` lists each position below `n` exactly once.
pub open spec fn is_arrangement(p: Seq<usize>, n: int) -> bool {
    &&& p.len() == n
    &&& forall|q: int| 0 <= q < p.len() ==> #[trigger] p[q] < n
    &&& p.no_duplicates()
    &&& forall|v: usize| v < n ==> #[trigger] p.contains(v)
}

/// Exchanges the entries at `i` and `j`.
fn swap_at(v: &mut Vec<usize>, i: usize, j: usize)
    requires
        i < old(v).len(),
        j < old(v).len(),
    ensures
        final(v)@ == old(v)@.update(i as int, old(v)@[j as int]).update(j as int, old(v)@[i as int]),
{
    let t = v[i];
    let u = v[j];
    v[i] = u;
    v[j] = t;
}

/// Exchanging two entries keeps an arrangement, and keeps every split at a
/// place that both entries lie on the same side of.
proof fn lemma_swap(s: Seq<u64>, p: Seq<usize>, n: int, i: int, j: int, lo: int, hi: int)
    requires
        is_arrangement(p, n),
        0 <= lo <= i < hi <= n,
        lo <= j < hi,
        splits_at(s, p, lo),
        splits_at(s, p, hi),
    ensures
        is_arrangement(p.update(i, p[j]).update(j, p[i]), n),
        splits_at(s, p.update(i, p[j]).update(j, p[i]), lo),
        splits_at(s, p.update(i, p[j]).update(j, p[i]), hi),
{
    let t = p.update(i, p[j]).update(j, p[i]);
    assert forall|q: int| 0 <= q < t.len() implies #[trigger] t[q] == (if q == j {
        p[i]
    } else if q == i {
        p[j]
    } else {
        p[q]
    }) by {}
    assert forall|v: usize| v < n implies #[trigger] t.contains(v) by {
        assert(p.contains(v));
        let q = choose|q: int| 0 <= q < p.len() && p[q] == v;
        if q == i {
            assert(t[j] == v);
        } else if q == j {
            assert(t[i] == v);
        } else {
            assert(t[q] == v);
        }
    }
    assert forall|a: int, b: int| 0 <= a < t.len() && 0 <= b < t.len() && a != b implies t[a]
        != t[b] by {}
    assert forall|a: int, b: int| 0 <= a < lo <= b < t.len() implies ranks_before(
        s,
        #[trigger] t[a] as int,
        #[trigger] t[b] as int,
    ) by {
        let b2 = if b == j { i } else if b == i { j } else { b };
        assert(t[b] == p[b2]);
        assert(t[a] == p[a]);
    }
    assert forall|a: int, b: int| 0 <= a < hi <= b < t.len() implies ranks_before(
        s,
        #[trigger] t[a] as int,
        #[trigger] t[b] as int,
    ) by {
        let a2 = if a == j { i } else if a == i { j } else { a };
        assert(t[a] == p[a2]);
        assert(t[b] == p[b]);
    }
}

/// Rearranges `p` so that its first `k` entries are the best `k` positions,
/// in no particular order: each partition round moves the entries that rank
/// before a pivot ahead of it and narrows the range to the side that holds
/// place `k`.
fn partition_top(scores: &Vec<u64>, p: &mut Vec<usize>, k: usize)
    requires
        is_arrangement(old(p)@, scores.len() as int),
        k < scores.len(),
    ensures
        is_arrangement(final(p)@, scores.len() as int),
        splits_at(scores@, final(p)@, k as int),
{
    let n = p.len();
    let mut lo: usize = 0;
    let mut hi: usize = n;
    while lo < k && k < hi
        invariant
            n == scores.len(),
            is_arrangement(p@, n as int),
            lo <= k <= hi <= n,
            k < n,
            splits_at(scores@, p@, lo as int),
            splits_at(scores@, p@, hi as int),
        decreases hi - lo,
    {
        let pivot = p[hi - 1];
        let mut i: usize = lo;
        let mut j: usize = lo;
        while j < hi - 1
            invariant
                n == scores.len(),
                is_arrangement(p@, n as int),
                lo <= i <= j <= hi - 1,
                lo < k < hi <= n,
                p@[hi - 1] == pivot,
                splits_at(scores@, p@, lo as int),
                splits_at(scores@, p@, hi as int),
                forall|q: int| lo <= q < i ==> ranks_before(scores@, #[trigger] p@[q] as int, pivot as int),
                forall|q: int| i <= q < j ==> !ranks_before(scores@, #[trigger] p@[q] as int, pivot as int),
            decreases hi - 1 - j,
        {
            let x = p[j];
            if scores[x] > scores[pivot] || (scores[x] == scores[pivot] && x < pivot) {
                let ghost before = p@;
                proof {
                    lemma_swap(scores@, before, n as int, i as int, j as int, lo as int, hi as int);
                }
                swap_at(p, i, j);
                i += 1;
            }
            j += 1;
        }
        let ghost before = p@;
        proof {
            lemma_swap(scores@, before, n as int, i as int, hi - 1, lo as int, hi as int);
        }
        swap_at(p, i, hi - 1);
        proof {
            lemma_pivot_splits(scores@, p@, n as int, lo as int, i as int, hi as int);
        }
        if i < k {
            lo = i + 1;
        } else if i > k {
            hi = i;
        } else {
            lo = k;
        }
    }
}

/// After a partition round that leaves the pivot at `m`, the arrangement
/// splits both at `m` and just after it.
proof fn lemma_pivot_splits(s: Seq<u64>, p: Seq<usize>, n: int, lo: int, m: int, hi: int)
    requires
        is_arrangement(p, n),
        0 <= lo <= m < hi <= n,
        splits_at(s, p, lo),
        splits_at(s, p, hi),
        forall|q: int| lo <= q < m ==> ranks_before(s, #[trigger] p[q] as int, p[m] as int),
        forall|q: int| m < q < hi ==> !ranks_before(s, #[trigger] p[q] as int, p[m] as int),
    ensures
        splits_at(s, p, m),
        splits_at(s, p, m + 1),
{
    let pv = p[m] as int;
    assert forall|q: int| m < q < hi implies ranks_before(s, pv, #[trigger] p[q] as int) by {
        assert(p[q] != p[m]);
    }
    assert forall|a: int, b: int| 0 <= a < m <= b < p.len() implies ranks_before(
        s,
        #[trigger] p[a] as int,
        #[trigger] p[b] as int,
    ) by {
        if a >= lo && b < hi {
            if b > m {
                assert(ranks_before(s, pv, p[b] as int));
            }
        }
    }
    assert forall|a: int, b: int| 0 <= a < m + 1 <= b < p.len() implies ranks_before(
        s,
        #[trigger] p[a] as int,
        #[trigger] p[b] as int,
    ) by {
        if a >= lo && b < hi {
            assert(ranks_before(s, pv, p[b] as int));
            if a < m {
                assert(ranks_before(s, p[a] as int, pv));
            }
        }
    }
}

/// `r` is ordered best-first.
pub open spec fn is_ranked(s: Seq<u64>, r: Seq<usize>) -> bool {
    forall|a: int, b: int|
        0 <= a < b < r.len() ==> ranks_before(s, #[trigger] r[a] as int, #[trigger] r[b] as int)
}

/// The entries of `head` ordered best-first.
fn sort_by_rank(scores: &Vec<u64>, head: &Vec<usize>) -> (r: Vec<usize>)
    requires
        forall|q: int| 0 <= q < head.len() ==> #[trigger] head@[q] < scores.len(),
        head@.no_duplicates(),
    ensures
        r.len() == head.len(),
        is_ranked(scores@, r@),
        forall|q: int| 0 <= q < r.len() ==> head@.contains(#[trigger] r@[q]),
        forall|q: int| 0 <= q < head.len() ==> r@.contains(#[trigger] head@[q]),
{
    let mut r: Vec<usize> = Vec::new();
    let mut m: usize = 0;
    while m < head.len()
        invariant
            m <= head.len(),
            r.len() == m,
            forall|q: int| 0 <= q < head.len() ==> #[trigger] head@[q] < scores.len(),
            head@.no_duplicates(),
            is_ranked(scores@, r@),
            forall|q: int| 0 <= q < r.len() ==> #[trigger] r@[q] < scores.len(),
            forall|q: int| 0 <= q < r.len() ==> head@.take(m as int).contains(#[trigger] r@[q]),
            forall|q: int| 0 <= q < m ==> r@.contains(#[trigger] head@[q]),
        decreases head.len() - m,
    {
        let x = head[m];
        let ghost old_r = r@;
        proof {
            assert forall|q: int| 0 <= q < r.len() implies r@[q] != x by {
                let t = choose|t: int| 0 <= t < m && head@.take(m as int)[t] == r@[q];
                assert(head@[t] == r@[q]);
            }
        }
        let mut p: usize = 0;
        while p < r.len() && !(scores[x] > scores[r[p]] || (scores[x] == scores[r[p]] && x < r[p]))
            invariant
                p <= r.len(),
                r@ == old_r,
                x < scores.len(),
                forall|q: int| 0 <= q < r.len() ==> #[trigger] r@[q] < scores.len(),
                forall|q: int| 0 <= q < r.len() ==> r@[q] != x,
                forall|q: int| 0 <= q < p ==> ranks_before(scores@, #[trigger] r@[q] as int, x as int),
            decreases r.len() - p,
        {
            p += 1;
        }
        r.insert(p, x);
        proof {
            lemma_insert_ranked(scores@, old_r, p as int, x);
            let hm = head@.take(m as int + 1);
            assert forall|q: int| 0 <= q < r.len() implies hm.contains(#[trigger] r@[q]) by {
                if q == p {
                    assert(hm[m as int] == x);
                } else {
                    let q2 = if q < p { q } else { q - 1 };
                    assert(r@[q] == old_r[q2]);
                    let t = choose|t: int| 0 <= t < m && head@.take(m as int)[t] == old_r[q2];
                    assert(hm[t] == old_r[q2]);
                }
            }
            assert forall|t: int| 0 <= t < m + 1 implies r@.contains(#[trigger] head@[t]) by {
                if t == m {
                    assert(r@[p as int] == x);
                } else {
                    assert(old_r.contains(head@[t]));
                    let q = choose|q: int| 0 <= q < old_r.len() && old_r[q] == head@[t];
                    if q < p {
                        assert(r@[q] == old_r[q]);
                    } else {
                        assert(r@[q + 1] == old_r[q]);
                    }
                }
            }
        }
        m += 1;
    }
    proof {
        assert(head@.take(m as int) =~= head@);
    }
    r
}

/// Inserting `x` where the entries before rank before it and the entry after
/// ranks after it keeps a sequence ordered best-first.
proof fn lemma_insert_ranked(s: Seq<u64>, r: Seq<usize>, p: int, x: usize)
    requires
        is_ranked(s, r),
        0 <= p <= r.len(),
        forall|q: int| 0 <= q < p ==> ranks_before(s, #[trigger] r[q] as int, x as int),
        p < r.len() ==> ranks_before(s, x as int, r[p] as int),
    ensures
        is_ranked(s, r.insert(p, x)),
{
    let t = r.insert(p, x);
    assert forall|q: int| p <= q < r.len() implies ranks_before(s, x as int, #[trigger] r[q] as int) by {
        if q > p {
            assert(ranks_before(s, r[p] as int, r[q] as int));
        }
    }
    assert forall|a: int, b: int| 0 <= a < b < t.len() implies ranks_before(
        s,
        #[trigger] t[a] as int,
        #[trigger] t[b] as int,
    ) by {
        if b < p {
            assert(t[a] == r[a] && t[b] == r[b]);
        } else if b == p {
            assert(t[a] == r[a]);
        } else if a < p {
            assert(t[a] == r[a] && t[b] == r[b - 1]);
            assert(ranks_before(s, r[a] as int, x as int));
        } else if a == p {
            assert(t[b] == r[b - 1]);
        } else {
            assert(t[a] == r[a - 1] && t[b] == r[b - 1]);
        }
    }
}

} // verus!
