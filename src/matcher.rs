//! Ranking of candidate names by similarity to a query, and the time-zone
//! autocompletion built on it.
use crate::rank::{is_top_k, lemma_top_k_all_but_one, lemma_top_k_members, lemma_top_k_prefix, lemma_top_k_scores, ranks_before, lemma_top_k_unique, top_k_indices};
use crate::command::MAX_CHOICES;
use crate::timestamp::is_zone_name;
use crate::zones::{is_zone_table, lemma_zone_table_unique, text_before};
use vstd::prelude::*;

verus! {

/// The requested number of matches is not below the number of candidates.
#[derive(Debug, Clone, Copy, PartialEq, Eq, Structural)]
pub enum TopKError {
    InvalidArgument,
}

/// Similarity of `candidate` to `query` as an order key; a higher key means a
/// closer match.
pub uninterp spec fn similarity_key(query: Seq<char>, candidate: Seq<char>) -> u64;

/// Relies on `strsim::jaro_winkler` for the similarity of two strings, a
/// number in [0, 1] that depends on the two strings alone. For such numbers
/// `f64::to_bits` orders as the numbers do (and as `f64::total_cmp` does).
#[verifier::external_body]
fn similarity(query: &str, candidate: &str) -> (r: u64)
    ensures
        r == similarity_key(query@, candidate@),
{
    strsim::jaro_winkler(query, candidate).to_bits()
}

/// Relies on `chrono_tz::TZ_VARIANTS` and `chrono_tz::Tz::name` for the names
/// of the supported time zones. The table is generated from one ordered set
/// of the zone and link names of the bundled zone data (several hundred), the
/// same set that `Tz`'s `FromStr` looks names up in: so every name is one that
/// parses, every name that parses is listed, and the names ascend.
#[verifier::external_body]
fn time_zone_names() -> (r: Vec<&'static str>)
    ensures
        forall|i: int| 0 <= i < r@.len() ==> is_zone_name(#[trigger] r@[i]@),
        forall|s: Seq<char>|
            #[trigger] is_zone_name(s) ==> exists|i: int| 0 <= i < r@.len() && r@[i]@ == s,
        forall|i: int, j: int|
            0 <= i < j < r@.len() ==> text_before(#[trigger] r@[i]@, #[trigger] r@[j]@),
        MAX_CHOICES < r@.len(),
{
    chrono_tz::TZ_VARIANTS.map(chrono_tz::Tz::name).to_vec()
}

/// The similarity key of each candidate to `query`, in candidate order.
pub open spec fn scores_of<'a>(query: Seq<char>, candidates: Seq<&'a str>) -> Seq<u64> {
    candidates.map_values(|c: &'a str| similarity_key(query, c@))
}

/// The candidates at the positions `idx`, in that order.
pub open spec fn names_at<'a>(candidates: Seq<&'a str>, idx: Seq<usize>) -> Seq<&'a str> {
    idx.map_values(|i: usize| candidates[i as int])
}

/// `v` lists the candidates at the best `k` positions under `scores`,
/// best-first, ties going to the lower position.
pub open spec fn is_best_by<'a>(candidates: Seq<&'a str>, scores: Seq<u64>, k: nat, v: Seq<&'a str>) -> bool {
    exists|idx: Seq<usize>| is_top_k(scores, k, idx) && v == names_at(candidates, idx)
}

/// What a selection of `k` candidates under `scores` returns: an error exactly
/// when `k` is not below the number of candidates, else the best `k`.
pub open spec fn is_outcome_by<'a>(
    candidates: Seq<&'a str>,
    scores: Seq<u64>,
    k: nat,
    r: Result<Vec<&'a str>, TopKError>,
) -> bool {
    match r {
        Ok(v) => k < candidates.len() && is_best_by(candidates, scores, k, v@),
        Err(e) => k >= candidates.len() && e == TopKError::InvalidArgument,
    }
}

/// What a selection of the `k` candidates most similar to `query` returns.
pub open spec fn is_outcome<'a>(
    candidates: Seq<&'a str>,
    query: Seq<char>,
    k: nat,
    r: Result<Vec<&'a str>, TopKError>,
) -> bool {
    is_outcome_by(candidates, scores_of(query, candidates), k, r)
}

/// The `k` candidates with the highest `scores` (one score per candidate),
/// best-first, equal scores ordered by candidate position. Fails when `k` is
/// not below the number of candidates.
pub fn select_by_scores<'a>(candidates: &Vec<&'a str>, scores: &Vec<u64>, k: usize) -> (r: Result<
    Vec<&'a str>,
    TopKError,
>)
    requires
        scores.len() == candidates.len(),
    ensures
        is_outcome_by(candidates@, scores@, k as nat, r),
{
    if k >= candidates.len() {
        return Err(TopKError::InvalidArgument);
    }
    let idx = top_k_indices(scores, k);
    let mut out: Vec<&'a str> = Vec::new();
    let mut j: usize = 0;
    while j < idx.len()
        invariant
            j <= idx.len(),
            scores.len() == candidates.len(),
            is_top_k(scores@, k as nat, idx@),
            out@ == names_at(candidates@, idx@.take(j as int)),
        decreases idx.len() - j,
    {
        out.push(candidates[idx[j]]);
        j += 1;
        proof {
            assert(out@ =~= names_at(candidates@, idx@.take(j as int)));
        }
    }
    proof {
        assert(idx@.take(j as int) =~= idx@);
    }
    Ok(out)
}

/// The `k` candidates most similar to `query`, best-first, equal similarity
/// ordered by candidate position. Each candidate is scored once. Fails when
/// `k` is not below the number of candidates.
pub fn select_top_k<'a>(candidates: &Vec<&'a str>, query: &str, k: usize) -> (r: Result<
    Vec<&'a str>,
    TopKError,
>)
    ensures
        is_outcome(candidates@, query@, k as nat, r),
{
    let n = candidates.len();
    let mut scores: Vec<u64> = Vec::new();
    let mut i: usize = 0;
    while i < n
        invariant
            n == candidates.len(),
            i <= n,
            scores@ == scores_of(query@, candidates@.take(i as int)),
        decreases n - i,
    {
        scores.push(similarity(query, candidates[i]));
        i += 1;
        proof {
            assert(scores@ =~= scores_of(query@, candidates@.take(i as int)));
        }
    }
    proof {
        assert(candidates@.take(n as int) =~= candidates@);
    }
    select_by_scores(candidates, &scores, k)
}

/// The `count` supported time-zone names most similar to `query`, best-first.
/// Fails when `count` is not below the number of supported time zones.
pub fn autocomplete_tz(query: &str, count: usize) -> (r: Result<Vec<&'static str>, TopKError>)
    ensures
        exists|names: Seq<&'static str>|
            is_zone_table(names) && is_outcome(names, query@, count as nat, r),
        r matches Ok(v) ==> forall|i: int| 0 <= i < v@.len() ==> is_zone_name(#[trigger] v@[i]@),
{
    let names = time_zone_names();
    let r = select_top_k(&names, query, count);
    assert(is_zone_table(names@) && is_outcome(names@, query@, count as nat, r));
    proof {
        if r is Ok {
            let v = r->Ok_0@;
            lemma_best_are_members(names@, scores_of(query@, names@), count as nat, v);
            assert forall|i: int| 0 <= i < v.len() implies is_zone_name(#[trigger] v[i]@) by {
                assert(names@.contains(v[i]));
                let j = choose|j: int| 0 <= j < names@.len() && names@[j] == v[i];
                assert(is_zone_name(names@[j]@));
            }
        }
    }
    r
}

/// Every name in a selection is one of the candidates.
pub proof fn lemma_best_are_members<'a>(
    candidates: Seq<&'a str>,
    scores: Seq<u64>,
    k: nat,
    v: Seq<&'a str>,
)
    requires
        scores.len() == candidates.len(),
        is_best_by(candidates, scores, k, v),
    ensures
        v.len() == k,
        forall|q: int| 0 <= q < v.len() ==> candidates.contains(#[trigger] v[q]),
{
    let idx = choose|idx: Seq<usize>| is_top_k(scores, k, idx) && v == names_at(candidates, idx);
    assert forall|q: int| 0 <= q < v.len() implies candidates.contains(#[trigger] v[q]) by {
        assert(v[q] == candidates[idx[q] as int]);
    }
}

/// Two zone tables give every query the same similarity keys.
proof fn lemma_zone_scores_agree(query: Seq<char>, n1: Seq<&'static str>, n2: Seq<&'static str>)
    requires
        is_zone_table(n1),
        is_zone_table(n2),
    ensures
        scores_of(query, n1) == scores_of(query, n2),
{
    lemma_zone_table_unique(n1, n2);
    assert(scores_of(query, n1) =~= scores_of(query, n2));
}

/// Selections of `k1 <= k2` zones for one query, each over a zone table,
/// agree on their first `k1` names: so repeated calls give the same names,
/// and a smaller count gives the start of a larger one.
pub proof fn lemma_zone_best_agree(
    query: Seq<char>,
    k1: nat,
    k2: nat,
    n1: Seq<&'static str>,
    n2: Seq<&'static str>,
    v1: Seq<&'static str>,
    v2: Seq<&'static str>,
)
    requires
        k1 <= k2,
        is_zone_table(n1),
        is_zone_table(n2),
        is_best_by(n1, scores_of(query, n1), k1, v1),
        is_best_by(n2, scores_of(query, n2), k2, v2),
    ensures
        v1.len() == k1,
        v2.len() == k2,
        forall|q: int| 0 <= q < k1 ==> #[trigger] v1[q]@ == v2[q]@,
{
    lemma_zone_table_unique(n1, n2);
    lemma_zone_scores_agree(query, n1, n2);
    let s = scores_of(query, n1);
    let i1 = choose|idx: Seq<usize>| is_top_k(s, k1, idx) && v1 == names_at(n1, idx);
    let i2 = choose|idx: Seq<usize>| is_top_k(s, k2, idx) && v2 == names_at(n2, idx);
    lemma_top_k_prefix(s, k1, k2, i1, i2);
    assert forall|q: int| 0 <= q < k1 implies #[trigger] v1[q]@ == v2[q]@ by {
        assert(i1[q] == i2[q]);
        assert(v1[q] == n1[i1[q] as int]);
        assert(v2[q] == n2[i2[q] as int]);
    }
}

/// Time-zone selections over zone tables fail for the same counts: for a
/// count at most another's, the smaller fails only if the larger does, and
/// equal counts both succeed or both fail. Where both succeed, the smaller
/// count's names start the larger's.
pub proof fn lemma_zone_outcomes_agree(
    query: Seq<char>,
    k1: nat,
    k2: nat,
    n1: Seq<&'static str>,
    n2: Seq<&'static str>,
    r1: Result<Vec<&'static str>, TopKError>,
    r2: Result<Vec<&'static str>, TopKError>,
)
    requires
        k1 <= k2,
        is_zone_table(n1),
        is_zone_table(n2),
        is_outcome(n1, query, k1, r1),
        is_outcome(n2, query, k2, r2),
    ensures
        r2 is Ok ==> r1 is Ok,
        k1 == k2 ==> (r1 is Ok <==> r2 is Ok),
        r1 is Ok && r2 is Ok ==> forall|q: int|
            0 <= q < k1 ==> #[trigger] r1->Ok_0@[q]@ == r2->Ok_0@[q]@,
{
    lemma_zone_table_unique(n1, n2);
    if r1 is Ok && r2 is Ok {
        lemma_zone_best_agree(query, k1, k2, n1, n2, r1->Ok_0@, r2->Ok_0@);
    }
}

/// Two selections with the same candidates, query and size are the same
/// sequence.
pub proof fn lemma_outcome_deterministic<'a>(
    candidates: Seq<&'a str>,
    query: Seq<char>,
    k: nat,
    r1: Result<Vec<&'a str>, TopKError>,
    r2: Result<Vec<&'a str>, TopKError>,
)
    requires
        is_outcome(candidates, query, k, r1),
        is_outcome(candidates, query, k, r2),
    ensures
        r1 is Ok <==> r2 is Ok,
        r1 is Ok ==> r1->Ok_0@ == r2->Ok_0@,
{
    if r1 is Ok && r2 is Ok {
        let s = scores_of(query, candidates);
        let i1 = choose|idx: Seq<usize>| is_top_k(s, k, idx) && r1->Ok_0@ == names_at(candidates, idx);
        let i2 = choose|idx: Seq<usize>| is_top_k(s, k, idx) && r2->Ok_0@ == names_at(candidates, idx);
        lemma_top_k_unique(s, k, i1, i2);
    }
}

/// A selection of `k1` candidates is the start of the selection of `k2`
/// candidates from the same candidates and query, for `k1 <= k2`; so each
/// candidate of the smaller is in the larger.
pub proof fn lemma_outcome_prefix<'a>(
    candidates: Seq<&'a str>,
    query: Seq<char>,
    k1: nat,
    k2: nat,
    v1: Seq<&'a str>,
    v2: Seq<&'a str>,
)
    requires
        k1 <= k2,
        is_best_by(candidates, scores_of(query, candidates), k1, v1),
        is_best_by(candidates, scores_of(query, candidates), k2, v2),
    ensures
        v1 == v2.take(k1 as int),
        forall|q: int| 0 <= q < k1 ==> v2.contains(#[trigger] v1[q]),
{
    let s = scores_of(query, candidates);
    let i1 = choose|idx: Seq<usize>| is_top_k(s, k1, idx) && v1 == names_at(candidates, idx);
    let i2 = choose|idx: Seq<usize>| is_top_k(s, k2, idx) && v2 == names_at(candidates, idx);
    lemma_top_k_prefix(s, k1, k2, i1, i2);
    assert(v1 =~= v2.take(k1 as int));
    assert forall|q: int| 0 <= q < k1 implies v2.contains(#[trigger] v1[q]) by {
        assert(v2[q] == v1[q]);
    }
}

/// A selection of `k` from distinct candidates holds exactly `k` distinct
/// names, each one of the candidates.
pub proof fn lemma_outcome_members<'a>(
    candidates: Seq<&'a str>,
    scores: Seq<u64>,
    k: nat,
    v: Seq<&'a str>,
)
    requires
        scores.len() == candidates.len(),
        candidates.no_duplicates(),
        is_best_by(candidates, scores, k, v),
    ensures
        v.len() == k,
        v.no_duplicates(),
        forall|q: int| 0 <= q < k ==> candidates.contains(#[trigger] v[q]),
{
    let idx = choose|idx: Seq<usize>| is_top_k(scores, k, idx) && v == names_at(candidates, idx);
    lemma_top_k_members(scores, k, idx);
    assert forall|a: int, b: int| 0 <= a < v.len() && 0 <= b < v.len() && a != b implies v[a]
        != v[b] by {
        assert(idx[a] != idx[b]);
    }
    assert forall|q: int| 0 <= q < k implies candidates.contains(#[trigger] v[q]) by {
        assert(candidates[idx[q] as int] == v[q]);
    }
}

/// No candidate left out of a selection is more similar to the query than a
/// name kept.
pub proof fn lemma_outcome_scores<'a>(candidates: Seq<&'a str>, query: Seq<char>, k: nat, v: Seq<&'a str>)
    requires
        candidates.len() <= usize::MAX,
        is_best_by(candidates, scores_of(query, candidates), k, v),
    ensures
        forall|q: int, j: int|
            #![trigger v[q], candidates[j]]
            0 <= q < k && 0 <= j < candidates.len() && !v.contains(candidates[j]) ==> similarity_key(
                query,
                v[q]@,
            ) >= similarity_key(query, candidates[j]@),
{
    let s = scores_of(query, candidates);
    let idx = choose|idx: Seq<usize>| is_top_k(s, k, idx) && v == names_at(candidates, idx);
    lemma_top_k_scores(s, k, idx);
    assert forall|q: int, j: int|
        #![trigger v[q], candidates[j]]
        0 <= q < k && 0 <= j < candidates.len() && !v.contains(candidates[j]) implies similarity_key(
            query,
            v[q]@,
        ) >= similarity_key(query, candidates[j]@) by {
        let ju = j as usize;
        if idx.contains(ju) {
            let b = choose|b: int| 0 <= b < idx.len() && idx[b] == ju;
            assert(v[b] == candidates[idx[b] as int]);
            assert(v[b] == candidates[j]);
        }
        assert(!idx.contains(ju));
        assert(v[q] == candidates[idx[q] as int]);
        assert(s[idx[q] as int] >= s[ju as int]);
    }
}

/// Selecting all but one of distinct candidates leaves out exactly one, and
/// every other candidate ranks before it.
pub proof fn lemma_outcome_all_but_one<'a>(candidates: Seq<&'a str>, query: Seq<char>, v: Seq<&'a str>)
    requires
        0 < candidates.len() <= usize::MAX,
        candidates.no_duplicates(),
        is_best_by(candidates, scores_of(query, candidates), (candidates.len() - 1) as nat, v),
    ensures
        exists|j: int| 0 <= j < candidates.len() && !v.contains(#[trigger] candidates[j]),
        forall|j: int, m: int|
            #![trigger candidates[j], candidates[m]]
            0 <= j < candidates.len() && 0 <= m < candidates.len() && m != j && !v.contains(
                candidates[j],
            ) ==> ranks_before(scores_of(query, candidates), m, j),
{
    let s = scores_of(query, candidates);
    let idx = choose|idx: Seq<usize>|
        is_top_k(s, (candidates.len() - 1) as nat, idx) && v == names_at(candidates, idx);
    lemma_top_k_all_but_one(s, idx);
    let w = choose|j: usize| j < s.len() && !idx.contains(j);
    assert(!v.contains(candidates[w as int])) by {
        if v.contains(candidates[w as int]) {
            let b = choose|b: int| 0 <= b < v.len() && v[b] == candidates[w as int];
            assert(v[b] == candidates[idx[b] as int]);
            assert(idx[b] == w);
        }
    }
    assert forall|j: int, m: int|
        #![trigger candidates[j], candidates[m]]
        0 <= j < candidates.len() && 0 <= m < candidates.len() && m != j && !v.contains(
            candidates[j],
        ) implies ranks_before(s, m, j) by {
        let ju = j as usize;
        if idx.contains(ju) {
            let b = choose|b: int| 0 <= b < idx.len() && idx[b] == ju;
            assert(v[b] == candidates[j]);
        }
    }
}

} // verus!
