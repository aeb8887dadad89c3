//! The aggregator: typed queries and hits, removal of repeated query blocks,
//! and the statistics of each query.
//!
//! The extremes of a query are running extremes over its hits in report
//! order. The highest score, the lowest score and the highest e-value start
//! at zero, so a query whose scores are all negative has the highest score
//! zero; the lowest e-value starts at positive infinity. A query without hits
//! has no statistics.

use vstd::prelude::*;
use vstd::slice::slice_to_vec;
use crate::measure::Real;
use crate::measure::running_max;
use crate::measure::running_min;
use crate::measure::lemma_running_max;
use crate::measure::lemma_running_min;
use crate::text::bytes_eq;

verus! {

/// One row of a hits table.
#[derive(Debug)]
pub struct Hit {
    pub identifier: Vec<u8>,
    pub category: Vec<u8>,
    pub species_count: u64,
    pub score: Real,
    pub e_value: Real,
}

/// The value of a [`Hit`].
pub ghost struct HitModel {
    pub identifier: Seq<u8>,
    pub category: Seq<u8>,
    pub species_count: u64,
    pub score: Real,
    pub e_value: Real,
}

impl View for Hit {
    type V = HitModel;

    open spec fn view(&self) -> HitModel {
        HitModel {
            identifier: self.identifier@,
            category: self.category@,
            species_count: self.species_count,
            score: self.score,
            e_value: self.e_value,
        }
    }
}

/// The values of the hits of `v`, in order.
pub open spec fn hit_views(v: Seq<Hit>) -> Seq<HitModel> {
    Seq::new(v.len(), |i: int| v[i]@)
}

/// One query with its hits in report order.
#[derive(Debug)]
pub struct Query {
    pub name: Vec<u8>,
    pub hits: Vec<Hit>,
}

/// The value of a [`Query`].
pub ghost struct QueryModel {
    pub name: Seq<u8>,
    pub hits: Seq<HitModel>,
}

impl View for Query {
    type V = QueryModel;

    open spec fn view(&self) -> QueryModel {
        QueryModel { name: self.name@, hits: hit_views(self.hits@) }
    }
}

/// The values of the queries of `v`, in order.
pub open spec fn query_views(v: Seq<Query>) -> Seq<QueryModel> {
    Seq::new(v.len(), |i: int| v[i]@)
}

/// The statistics of one query, with the hits they were computed over.
#[derive(Debug)]
pub struct QueryStatistics {
    pub name: Vec<u8>,
    pub highest_score: Real,
    pub lowest_score: Real,
    pub highest_e_value: Real,
    pub lowest_e_value: Real,
    pub hit_count: usize,
    pub hits: Vec<Hit>,
}

/// The value of a [`QueryStatistics`].
pub ghost struct StatsModel {
    pub name: Seq<u8>,
    pub highest_score: Real,
    pub lowest_score: Real,
    pub highest_e_value: Real,
    pub lowest_e_value: Real,
    pub hit_count: nat,
    pub hits: Seq<HitModel>,
}

impl View for QueryStatistics {
    type V = StatsModel;

    open spec fn view(&self) -> StatsModel {
        StatsModel {
            name: self.name@,
            highest_score: self.highest_score,
            lowest_score: self.lowest_score,
            highest_e_value: self.highest_e_value,
            lowest_e_value: self.lowest_e_value,
            hit_count: self.hit_count as nat,
            hits: hit_views(self.hits@),
        }
    }
}

/// The values of the statistics of `v`, in order.
pub open spec fn stats_views(v: Seq<QueryStatistics>) -> Seq<StatsModel> {
    Seq::new(v.len(), |i: int| v[i]@)
}

/// A query without hits: it has no statistics.
#[derive(Clone, Copy, Debug, PartialEq, Eq, Structural)]
pub struct EmptyQuery;

/// The scores of `hits`, in order.
pub open spec fn scores(hits: Seq<HitModel>) -> Seq<Real> {
    Seq::new(hits.len(), |i: int| hits[i].score)
}

/// The e-values of `hits`, in order.
pub open spec fn e_values(hits: Seq<HitModel>) -> Seq<Real> {
    Seq::new(hits.len(), |i: int| hits[i].e_value)
}

/// Whether one of the first `n` queries of `qs` has the name `name`.
pub open spec fn named_among(qs: Seq<QueryModel>, n: int, name: Seq<u8>) -> bool {
    exists|j: int| 0 <= j < n && j < qs.len() && (#[trigger] qs[j]).name == name
}

/// The first `n` queries of `qs` without those whose name an earlier query
/// has: of each name the first query stays, and the order is kept.
pub open spec fn uniques(qs: Seq<QueryModel>, n: int) -> Seq<QueryModel>
    decreases n,
{
    if n <= 0 {
        Seq::empty()
    } else if named_among(qs, n - 1, qs[n - 1].name) {
        uniques(qs, n - 1)
    } else {
        uniques(qs, n - 1).push(qs[n - 1])
    }
}

/// Whether the first `n` queries of `qs` have `n` different names.
pub open spec fn distinct_names(qs: Seq<QueryModel>, n: int) -> bool {
    forall|i: int, j: int| 0 <= i < j < n ==> (#[trigger] qs[i]).name != (#[trigger] qs[j]).name
}

/// The statistics of a query that has hits.
pub open spec fn statistics_of(q: QueryModel) -> StatsModel {
    let n = q.hits.len() as int;
    StatsModel {
        name: q.name,
        highest_score: running_max(Real::zero(), scores(q.hits), n),
        lowest_score: running_min(Real::zero(), scores(q.hits), n),
        highest_e_value: running_max(Real::zero(), e_values(q.hits), n),
        lowest_e_value: running_min(Real::infinity(), e_values(q.hits), n),
        hit_count: q.hits.len(),
        hits: q.hits,
    }
}

/// The statistics of those of the first `n` queries of `qs` that have hits,
/// in order.
pub open spec fn statistics_list(qs: Seq<QueryModel>, n: int) -> Seq<StatsModel>
    decreases n,
{
    if n <= 0 {
        Seq::empty()
    } else if qs[n - 1].hits.len() == 0 {
        statistics_list(qs, n - 1)
    } else {
        statistics_list(qs, n - 1).push(statistics_of(qs[n - 1]))
    }
}

/// Removing repeated names never adds a query, and removes none exactly when
/// all names are different.
pub proof fn lemma_uniques_length(qs: Seq<QueryModel>, n: int)
    requires
        0 <= n <= qs.len(),
    ensures
        uniques(qs, n).len() <= n,
        uniques(qs, n).len() == n <==> distinct_names(qs, n),
    decreases n,
{
    if n > 0 {
        lemma_uniques_length(qs, n - 1);
        if named_among(qs, n - 1, qs[n - 1].name) {
            let j = choose|j: int| 0 <= j < n - 1 && j < qs.len() && (#[trigger] qs[j]).name == qs[n - 1].name;
            assert(qs[j].name == qs[n - 1].name);
            assert(!distinct_names(qs, n));
        } else {
            if distinct_names(qs, n - 1) {
                assert forall|i: int, j: int| 0 <= i < j < n implies (#[trigger] qs[i]).name != (
                #[trigger] qs[j]).name by {
                    if j == n - 1 {
                        if qs[i].name == qs[j].name {
                            assert(named_among(qs, n - 1, qs[n - 1].name));
                        }
                    }
                }
            } else {
                assert(!distinct_names(qs, n));
            }
        }
    }
}

/// The queries kept by the removal of repeated names are queries of the
/// input, have different names, and every name of the input is kept.
pub proof fn lemma_uniques_names(qs: Seq<QueryModel>, n: int)
    requires
        0 <= n <= qs.len(),
    ensures
        forall|k: int|
            0 <= k < uniques(qs, n).len() ==> named_among(qs, n, (#[trigger] uniques(qs, n)[k]).name),
        forall|j: int|
            0 <= j < n ==> named_among(uniques(qs, n), uniques(qs, n).len() as int, (#[trigger] qs[j]).name),
        distinct_names(uniques(qs, n), uniques(qs, n).len() as int),
    decreases n,
{
    if n > 0 {
        lemma_uniques_names(qs, n - 1);
        let prev = uniques(qs, n - 1);
        let cur = uniques(qs, n);
        let last = qs[n - 1];
        if named_among(qs, n - 1, last.name) {
            assert forall|k: int| 0 <= k < cur.len() implies named_among(qs, n, (#[trigger] cur[k]).name) by {
                assert(named_among(qs, n - 1, prev[k].name));
                let j = choose|j: int| 0 <= j < n - 1 && j < qs.len() && (#[trigger] qs[j]).name == prev[k].name;
                assert(0 <= j < n && qs[j].name == cur[k].name);
            }
            let w = choose|j: int| 0 <= j < n - 1 && j < qs.len() && (#[trigger] qs[j]).name == last.name;
            assert(named_among(prev, prev.len() as int, qs[w].name));
        } else {
            assert forall|k: int| 0 <= k < cur.len() implies named_among(qs, n, (#[trigger] cur[k]).name) by {
                if k < prev.len() {
                    assert(cur[k] == prev[k]);
                    assert(named_among(qs, n - 1, prev[k].name));
                    let j = choose|j: int| 0 <= j < n - 1 && j < qs.len() && (#[trigger] qs[j]).name == prev[k].name;
                    assert(0 <= j < n && qs[j].name == cur[k].name);
                } else {
                    assert(cur[k] == last);
                    assert(qs[n - 1].name == cur[k].name);
                }
            }
            assert forall|j: int| 0 <= j < n implies named_among(cur, cur.len() as int, (#[trigger] qs[j]).name) by {
                if j < n - 1 {
                    assert(named_among(prev, prev.len() as int, qs[j].name));
                    let k = choose|k: int| 0 <= k < prev.len() && (#[trigger] prev[k]).name == qs[j].name;
                    assert(cur[k] == prev[k]);
                    assert(0 <= k < cur.len() && cur[k].name == qs[j].name);
                } else {
                    assert(cur[cur.len() - 1] == last);
                }
            }
            assert forall|i: int, j: int| 0 <= i < j < cur.len() implies (#[trigger] cur[i]).name != (
            #[trigger] cur[j]).name by {
                assert(cur[i] == prev[i]);
                if j == cur.len() - 1 {
                    assert(cur[j] == last);
                    assert(named_among(qs, n - 1, prev[i].name));
                } else {
                    assert(cur[j] == prev[j]);
                }
            }
        }
    }
}

/// The lowest e-value of a query is zero only if one of its hits has the
/// e-value zero.
pub proof fn lemma_lowest_e_value_zero(q: QueryModel)
    requires
        statistics_of(q).lowest_e_value.same(Real::zero()),
    ensures
        exists|i: int| 0 <= i < q.hits.len() && (#[trigger] q.hits[i]).e_value.same(Real::zero()),
{
    let n = q.hits.len() as int;
    let low = running_min(Real::infinity(), e_values(q.hits), n);
    lemma_running_min(Real::infinity(), e_values(q.hits), n);
    assert(!Real::infinity().same(Real::zero()));
    let i = choose|i: int| 0 <= i < n && low == e_values(q.hits)[i];
    assert(q.hits[i].e_value == low);
}

/// The extremes of a query are never NaN and lie in order, and every score
/// and e-value of the query that is not a NaN lies between its two extremes.
pub proof fn lemma_extremes_enclose_hits(q: QueryModel)
    ensures
        !statistics_of(q).highest_score.is_nan(),
        !statistics_of(q).lowest_score.is_nan(),
        !statistics_of(q).highest_e_value.is_nan(),
        !statistics_of(q).lowest_e_value.is_nan(),
        statistics_of(q).lowest_score.key() <= statistics_of(q).highest_score.key(),
        forall|i: int|
            0 <= i < q.hits.len() && !(#[trigger] q.hits[i]).score.is_nan() ==> statistics_of(
                q,
            ).lowest_score.key() <= q.hits[i].score.key() <= statistics_of(q).highest_score.key(),
        forall|i: int|
            0 <= i < q.hits.len() && !(#[trigger] q.hits[i]).e_value.is_nan() ==> statistics_of(
                q,
            ).lowest_e_value.key() <= q.hits[i].e_value.key() <= statistics_of(
                q,
            ).highest_e_value.key(),
        (exists|i: int| 0 <= i < q.hits.len() && !(#[trigger] q.hits[i]).e_value.is_nan())
            ==> statistics_of(q).lowest_e_value.key() <= statistics_of(q).highest_e_value.key(),
{
    let n = q.hits.len() as int;
    lemma_running_max(Real::zero(), scores(q.hits), n);
    lemma_running_min(Real::zero(), scores(q.hits), n);
    lemma_running_max(Real::zero(), e_values(q.hits), n);
    lemma_running_min(Real::infinity(), e_values(q.hits), n);
    let s = statistics_of(q);
    assert forall|i: int| 0 <= i < q.hits.len() && !(#[trigger] q.hits[i]).score.is_nan() implies s.lowest_score.key()
        <= q.hits[i].score.key() <= s.highest_score.key() by {
        assert(scores(q.hits)[i] == q.hits[i].score);
    }
    assert forall|i: int| 0 <= i < q.hits.len() && !(#[trigger] q.hits[i]).e_value.is_nan() implies s.lowest_e_value.key()
        <= q.hits[i].e_value.key() <= s.highest_e_value.key() by {
        assert(e_values(q.hits)[i] == q.hits[i].e_value);
    }
}

impl Hit {
    /// A copy of the hit.
    pub fn duplicate(&self) -> (r: Hit)
        ensures
            r@ == self@,
    {
        Hit {
            identifier: slice_to_vec(self.identifier.as_slice()),
            category: slice_to_vec(self.category.as_slice()),
            species_count: self.species_count,
            score: self.score,
            e_value: self.e_value,
        }
    }
}

/// A copy of `hits`.
pub fn copy_hits(hits: &[Hit]) -> (r: Vec<Hit>)
    ensures
        hit_views(r@) == hit_views(hits@),
{
    let mut out: Vec<Hit> = Vec::new();
    let mut i: usize = 0;
    while i < hits.len()
        invariant
            i <= hits.len(),
            out.len() == i,
            forall|k: int| 0 <= k < i ==> (#[trigger] out@[k])@ == hits@[k]@,
        decreases hits.len() - i,
    {
        out.push(hits[i].duplicate());
        i += 1;
    }
    assert(hit_views(out@) =~= hit_views(hits@));
    out
}

impl QueryStatistics {
    /// Statistics over no hits, for no query: every number is zero.
    pub fn new() -> (r: QueryStatistics)
        ensures
            r@ == (StatsModel {
                name: Seq::empty(),
                highest_score: Real::zero(),
                lowest_score: Real::zero(),
                highest_e_value: Real::zero(),
                lowest_e_value: Real::zero(),
                hit_count: 0,
                hits: Seq::empty(),
            }),
    {
        let r = QueryStatistics {
            name: Vec::new(),
            highest_score: Real::new_zero(),
            lowest_score: Real::new_zero(),
            highest_e_value: Real::new_zero(),
            lowest_e_value: Real::new_zero(),
            hit_count: 0,
            hits: Vec::new(),
        };
        assert(r.name@ =~= Seq::<u8>::empty());
        assert(hit_views(r.hits@) =~= Seq::<HitModel>::empty());
        r
    }
}

impl Query {
    /// A query without a name and without hits.
    pub fn new() -> (r: Query)
        ensures
            r@ == (QueryModel { name: Seq::empty(), hits: Seq::empty() }),
    {
        let r = Query { name: Vec::new(), hits: Vec::new() };
        assert(r.name@ =~= Seq::<u8>::empty());
        assert(hit_views(r.hits@) =~= Seq::<HitModel>::empty());
        r
    }

    /// A copy of the query.
    pub fn duplicate(&self) -> (r: Query)
        ensures
            r@ == self@,
    {
        Query { name: slice_to_vec(self.name.as_slice()), hits: copy_hits(self.hits.as_slice()) }
    }

    /// The statistics of the query, or `EmptyQuery` if it has no hits.
    pub fn statistics(&self) -> (r: Result<QueryStatistics, EmptyQuery>)
        ensures
            self.hits.len() == 0 <==> r.is_err(),
            r.is_ok() ==> r.unwrap()@ == statistics_of(self@),
    {
        if self.hits.len() == 0 {
            return Err(EmptyQuery);
        }
        let ghost sc = scores(self@.hits);
        let ghost ev = e_values(self@.hits);
        let mut highest_score = Real::new_zero();
        let mut lowest_score = Real::new_zero();
        let mut highest_e_value = Real::new_zero();
        let mut lowest_e_value = Real::new_infinity();
        let mut i: usize = 0;
        while i < self.hits.len()
            invariant
                i <= self.hits.len(),
                sc == scores(self@.hits),
                ev == e_values(self@.hits),
                highest_score == running_max(Real::zero(), sc, i as int),
                lowest_score == running_min(Real::zero(), sc, i as int),
                highest_e_value == running_max(Real::zero(), ev, i as int),
                lowest_e_value == running_min(Real::infinity(), ev, i as int),
            decreases self.hits.len() - i,
        {
            let hit = &self.hits[i];
            assert(sc[i as int] == hit.score);
            assert(ev[i as int] == hit.e_value);
            if hit.score.gt(highest_score) {
                highest_score = hit.score;
            }
            if hit.score.lt(lowest_score) {
                lowest_score = hit.score;
            }
            if hit.e_value.gt(highest_e_value) {
                highest_e_value = hit.e_value;
            }
            if hit.e_value.lt(lowest_e_value) {
                lowest_e_value = hit.e_value;
            }
            i += 1;
        }
        Ok(
            QueryStatistics {
                name: slice_to_vec(self.name.as_slice()),
                highest_score,
                lowest_score,
                highest_e_value,
                lowest_e_value,
                hit_count: self.hits.len(),
                hits: copy_hits(self.hits.as_slice()),
            },
        )
    }
}

/// Removes the queries whose name an earlier query has: of each name the
/// first query stays, and the order is kept.
pub fn get_uniques(all_queries: &[Query]) -> (r: Vec<Query>)
    ensures
        query_views(r@) == uniques(query_views(all_queries@), all_queries.len() as int),
        r.len() <= all_queries.len(),
        r.len() == all_queries.len() <==> distinct_names(
            query_views(all_queries@),
            all_queries.len() as int,
        ),
{
    let ghost qs = query_views(all_queries@);
    let mut out: Vec<Query> = Vec::new();
    let mut i: usize = 0;
    assert(query_views(out@) =~= uniques(qs, 0));
    while i < all_queries.len()
        invariant
            i <= all_queries.len(),
            qs == query_views(all_queries@),
            query_views(out@) == uniques(qs, i as int),
        decreases all_queries.len() - i,
    {
        let mut seen: bool = false;
        let mut j: usize = 0;
        while j < i && !seen
            invariant
                j <= i < all_queries.len(),
                qs == query_views(all_queries@),
                seen ==> named_among(qs, i as int, qs[i as int].name),
                !seen ==> !named_among(qs, j as int, qs[i as int].name),
            decreases i - j + if seen { 0int } else { 1int },
        {
            if bytes_eq(all_queries[j].name.as_slice(), all_queries[i].name.as_slice()) {
                assert(qs[j as int].name == qs[i as int].name);
                seen = true;
            } else {
                j += 1;
            }
        }
        if !seen {
            let ghost before = query_views(out@);
            out.push(all_queries[i].duplicate());
            assert(query_views(out@) =~= before.push(qs[i as int]));
        }
        i += 1;
    }
    proof {
        lemma_uniques_length(qs, all_queries.len() as int);
    }
    out
}

/// Computes the statistics of every query that has hits, in order. A query
/// without hits is left out.
pub fn get_statistics(all_queries: &[Query]) -> (r: Vec<QueryStatistics>)
    ensures
        stats_views(r@) == statistics_list(query_views(all_queries@), all_queries.len() as int),
{
    let ghost qs = query_views(all_queries@);
    let mut out: Vec<QueryStatistics> = Vec::new();
    let mut i: usize = 0;
    assert(stats_views(out@) =~= statistics_list(qs, 0));
    while i < all_queries.len()
        invariant
            i <= all_queries.len(),
            qs == query_views(all_queries@),
            stats_views(out@) == statistics_list(qs, i as int),
        decreases all_queries.len() - i,
    {
        assert(qs[i as int] == all_queries[i as int]@);
        assert(qs[i as int].hits.len() == all_queries[i as int].hits.len());
        match all_queries[i].statistics() {
            Ok(s) => {
                let ghost before = stats_views(out@);
                out.push(s);
                assert(stats_views(out@) =~= before.push(statistics_of(qs[i as int])));
            },
            Err(_) => {},
        }
        i += 1;
    }
    out
}

/// Removes the repeated queries and computes the statistics of those that
/// stay: the first component is `get_uniques` of the input, the second
/// `get_statistics` of the first.
pub fn aggregate(all_queries: &[Query]) -> (r: (Vec<Query>, Vec<QueryStatistics>))
    ensures
        query_views(r.0@) == uniques(query_views(all_queries@), all_queries.len() as int),
        stats_views(r.1@) == statistics_list(query_views(r.0@), r.0.len() as int),
{
    let kept = get_uniques(all_queries);
    let stats = get_statistics(kept.as_slice());
    (kept, stats)
}

} // verus!
