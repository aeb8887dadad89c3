//! Selection of the best queries of a report and of the hits behind them.
//!
//! The best score is the greatest of the queries' highest scores, the best
//! e-value the least of their lowest e-values. Every query whose statistic
//! equals the best value is selected: ties are reported, not broken.
//! Equality is that of the numbers, exact.

use vstd::prelude::*;
use vstd::slice::slice_to_vec;
use crate::measure::Real;
use crate::measure::running_max;
use crate::measure::running_min;
use crate::measure::lemma_running_max;
use crate::measure::lemma_running_min;
use crate::stats::Hit;
use crate::stats::HitModel;
use crate::stats::QueryStatistics;
use crate::stats::StatsModel;
use crate::stats::copy_hits;
use crate::stats::stats_views;
use crate::text::byte_rows;

verus! {

/// The statistic by which queries are ranked.
#[derive(Clone, Copy, Debug, PartialEq, Eq, Structural)]
pub enum Criterion {
    /// The highest score; greater is better.
    Score,
    /// The lowest e-value; less is better.
    EValue,
}

/// The statistic of `s` that `criterion` ranks by.
pub open spec fn ranked_value(s: StatsModel, criterion: Criterion) -> Real {
    match criterion {
        Criterion::Score => s.highest_score,
        Criterion::EValue => s.lowest_e_value,
    }
}

/// The ranked statistics of `stats`, in order.
pub open spec fn ranked_values(stats: Seq<StatsModel>, criterion: Criterion) -> Seq<Real> {
    Seq::new(stats.len(), |i: int| ranked_value(stats[i], criterion))
}

/// The best value among the first `n` of `stats`: negative infinity for the
/// score and positive infinity for the e-value where there is none.
pub open spec fn best_value(stats: Seq<StatsModel>, criterion: Criterion, n: int) -> Real {
    match criterion {
        Criterion::Score => running_max(Real::neg_infinity(), ranked_values(stats, criterion), n),
        Criterion::EValue => running_min(Real::infinity(), ranked_values(stats, criterion), n),
    }
}

/// Those of the first `n` of `stats` whose ranked statistic equals `best`, in
/// order.
pub open spec fn achievers(stats: Seq<StatsModel>, criterion: Criterion, best: Real, n: int) -> Seq<
    StatsModel,
>
    decreases n,
{
    if n <= 0 {
        Seq::empty()
    } else if ranked_value(stats[n - 1], criterion).same(best) {
        achievers(stats, criterion, best, n - 1).push(stats[n - 1])
    } else {
        achievers(stats, criterion, best, n - 1)
    }
}

/// The statistics of all best queries of `stats`, in order.
pub open spec fn top_queries(stats: Seq<StatsModel>, criterion: Criterion) -> Seq<StatsModel> {
    achievers(
        stats,
        criterion,
        best_value(stats, criterion, stats.len() as int),
        stats.len() as int,
    )
}

/// The names of `stats`, in order.
pub open spec fn names_of(stats: Seq<StatsModel>) -> Seq<Seq<u8>> {
    Seq::new(stats.len(), |i: int| stats[i].name)
}

/// Whether `hit` is a best hit of the query with the statistics `s`: its
/// score equals the highest score, or its e-value equals the lowest e-value.
pub open spec fn is_best_hit(s: StatsModel, hit: HitModel) -> bool {
    hit.score.same(s.highest_score) || hit.e_value.same(s.lowest_e_value)
}

/// The best hits among the first `n` hits of `s`, each with the query's name,
/// in order.
pub open spec fn best_hits_of(s: StatsModel, n: int) -> Seq<(Seq<u8>, HitModel)>
    decreases n,
{
    if n <= 0 {
        Seq::empty()
    } else if is_best_hit(s, s.hits[n - 1]) {
        best_hits_of(s, n - 1).push((s.name, s.hits[n - 1]))
    } else {
        best_hits_of(s, n - 1)
    }
}

/// The best hits of the first `n` of `stats`, query by query.
pub open spec fn best_hits(stats: Seq<StatsModel>, n: int) -> Seq<(Seq<u8>, HitModel)>
    decreases n,
{
    if n <= 0 {
        Seq::empty()
    } else {
        best_hits(stats, n - 1) + best_hits_of(stats[n - 1], stats[n - 1].hits.len() as int)
    }
}

/// The values of the pairs of `v`, in order.
pub open spec fn pair_views(v: Seq<(Vec<u8>, Hit)>) -> Seq<(Seq<u8>, HitModel)> {
    Seq::new(v.len(), |i: int| (v[i].0@, v[i].1@))
}

/// No query ranks better than the best value, and where some query's ranked
/// statistic is a number, one of them equals the best value.
pub proof fn lemma_best_value(stats: Seq<StatsModel>, criterion: Criterion)
    ensures
        !best_value(stats, criterion, stats.len() as int).is_nan(),
        criterion == Criterion::Score ==> forall|i: int|
            0 <= i < stats.len() ==> !best_value(stats, criterion, stats.len() as int).below(
                (#[trigger] stats[i]).highest_score,
            ),
        criterion == Criterion::EValue ==> forall|i: int|
            0 <= i < stats.len() ==> !(#[trigger] stats[i]).lowest_e_value.below(
                best_value(stats, criterion, stats.len() as int),
            ),
        (exists|i: int| 0 <= i < stats.len() && !ranked_value(#[trigger] stats[i], criterion).is_nan())
            ==> exists|k: int|
            0 <= k < stats.len() && ranked_value(#[trigger] stats[k], criterion).same(
                best_value(stats, criterion, stats.len() as int),
            ),
{
    let n = stats.len() as int;
    let values = ranked_values(stats, criterion);
    let best = best_value(stats, criterion, n);
    lemma_running_max(Real::neg_infinity(), values, n);
    lemma_running_min(Real::infinity(), values, n);
    assert forall|i: int| 0 <= i < stats.len() implies values[i] == ranked_value(
        #[trigger] stats[i],
        criterion,
    ) by {}
    if exists|i: int| 0 <= i < stats.len() && !ranked_value(#[trigger] stats[i], criterion).is_nan() {
        let i = choose|i: int|
            0 <= i < stats.len() && !ranked_value(#[trigger] stats[i], criterion).is_nan();
        assert(values[i] == ranked_value(stats[i], criterion));
        let start = if criterion == Criterion::Score {
            Real::neg_infinity()
        } else {
            Real::infinity()
        };
        if best == start {
            assert(ranked_value(stats[i], criterion).same(best));
        } else {
            let k = choose|k: int| 0 <= k < n && best == values[k];
            assert(values[k] == ranked_value(stats[k], criterion));
            assert(ranked_value(stats[k], criterion).same(best));
        }
    }
}

/// Every query that achieves the best value is among the selected, and every
/// selected query achieves it.
pub proof fn lemma_achievers(stats: Seq<StatsModel>, criterion: Criterion, best: Real, n: int)
    requires
        0 <= n <= stats.len(),
    ensures
        forall|i: int|
            0 <= i < n && ranked_value(#[trigger] stats[i], criterion).same(best) ==> achievers(
                stats,
                criterion,
                best,
                n,
            ).contains(stats[i]),
        forall|k: int|
            0 <= k < achievers(stats, criterion, best, n).len() ==> ranked_value(
                #[trigger] achievers(stats, criterion, best, n)[k],
                criterion,
            ).same(best),
        achievers(stats, criterion, best, n).len() <= n,
    decreases n,
{
    if n > 0 {
        lemma_achievers(stats, criterion, best, n - 1);
        let prev = achievers(stats, criterion, best, n - 1);
        let cur = achievers(stats, criterion, best, n);
        assert forall|i: int|
            0 <= i < n && ranked_value(#[trigger] stats[i], criterion).same(best) implies cur.contains(
            stats[i],
        ) by {
            if i < n - 1 {
                assert(prev.contains(stats[i]));
                let k = choose|k: int| 0 <= k < prev.len() && prev[k] == stats[i];
                assert(cur[k] == stats[i]);
            } else {
                assert(cur[cur.len() - 1] == stats[i]);
            }
        }
    }
}

/// Where some query's ranked statistic is a number, a best query exists.
pub proof fn lemma_top_queries_exist(stats: Seq<StatsModel>, criterion: Criterion)
    requires
        exists|i: int|
            0 <= i < stats.len() && !ranked_value(#[trigger] stats[i], criterion).is_nan(),
    ensures
        top_queries(stats, criterion).len() > 0,
{
    let n = stats.len() as int;
    let best = best_value(stats, criterion, n);
    lemma_best_value(stats, criterion);
    lemma_achievers(stats, criterion, best, n);
    let k = choose|k: int|
        0 <= k < stats.len() && ranked_value(#[trigger] stats[k], criterion).same(best);
    assert(achievers(stats, criterion, best, n).contains(stats[k]));
}

impl QueryStatistics {
    /// A copy of the statistics.
    pub fn duplicate(&self) -> (r: QueryStatistics)
        ensures
            r@ == self@,
    {
        QueryStatistics {
            name: slice_to_vec(self.name.as_slice()),
            highest_score: self.highest_score,
            lowest_score: self.lowest_score,
            highest_e_value: self.highest_e_value,
            lowest_e_value: self.lowest_e_value,
            hit_count: self.hit_count,
            hits: copy_hits(self.hits.as_slice()),
        }
    }

    /// The statistic that `criterion` ranks by.
    pub fn ranked(&self, criterion: Criterion) -> (r: Real)
        ensures
            r == ranked_value(self@, criterion),
    {
        match criterion {
            Criterion::Score => self.highest_score,
            Criterion::EValue => self.lowest_e_value,
        }
    }
}

/// The best value of `stats` under `criterion`.
pub fn find_best_value(stats: &[QueryStatistics], criterion: Criterion) -> (r: Real)
    ensures
        r == best_value(stats_views(stats@), criterion, stats.len() as int),
{
    let ghost values = ranked_values(stats_views(stats@), criterion);
    let mut best = match criterion {
        Criterion::Score => Real::new_neg_infinity(),
        Criterion::EValue => Real::new_infinity(),
    };
    let mut i: usize = 0;
    while i < stats.len()
        invariant
            i <= stats.len(),
            values == ranked_values(stats_views(stats@), criterion),
            best == best_value(stats_views(stats@), criterion, i as int),
        decreases stats.len() - i,
    {
        let v = stats[i].ranked(criterion);
        assert(values[i as int] == v);
        match criterion {
            Criterion::Score => {
                if v.gt(best) {
                    best = v;
                }
            },
            Criterion::EValue => {
                if v.lt(best) {
                    best = v;
                }
            },
        }
        i += 1;
    }
    best
}

/// The statistics of all best queries of `stats` under `criterion`, in order.
pub fn get_top_queries(stats: &[QueryStatistics], criterion: Criterion) -> (r: Vec<QueryStatistics>)
    ensures
        stats_views(r@) == top_queries(stats_views(stats@), criterion),
{
    let ghost models = stats_views(stats@);
    let best = find_best_value(stats, criterion);
    let mut out: Vec<QueryStatistics> = Vec::new();
    let mut i: usize = 0;
    assert(stats_views(out@) =~= achievers(models, criterion, best, 0));
    while i < stats.len()
        invariant
            i <= stats.len(),
            models == stats_views(stats@),
            stats_views(out@) == achievers(models, criterion, best, i as int),
        decreases stats.len() - i,
    {
        assert(models[i as int] == stats[i as int]@);
        if stats[i].ranked(criterion).equals(best) {
            let ghost before = stats_views(out@);
            out.push(stats[i].duplicate());
            assert(stats_views(out@) =~= before.push(models[i as int]));
        }
        i += 1;
    }
    out
}

/// The names of all best queries of `stats` under `criterion`, in order.
pub fn select_best(stats: &[QueryStatistics], criterion: Criterion) -> (r: Vec<Vec<u8>>)
    ensures
        byte_rows(r@) == names_of(top_queries(stats_views(stats@), criterion)),
{
    let top = get_top_queries(stats, criterion);
    let mut out: Vec<Vec<u8>> = Vec::new();
    let mut i: usize = 0;
    while i < top.len()
        invariant
            i <= top.len(),
            out.len() == i,
            forall|k: int| 0 <= k < i ==> (#[trigger] out@[k])@ == top@[k].name@,
        decreases top.len() - i,
    {
        out.push(slice_to_vec(top[i].name.as_slice()));
        i += 1;
    }
    assert(byte_rows(out@) =~= names_of(stats_views(top@)));
    out
}

/// The best hits of every query of `stats`, each with its query's name, query
/// by query and in report order.
pub fn select_best_hits(stats: &[QueryStatistics]) -> (r: Vec<(Vec<u8>, Hit)>)
    ensures
        pair_views(r@) == best_hits(stats_views(stats@), stats.len() as int),
{
    let ghost models = stats_views(stats@);
    let mut out: Vec<(Vec<u8>, Hit)> = Vec::new();
    let mut i: usize = 0;
    assert(pair_views(out@) =~= best_hits(models, 0));
    while i < stats.len()
        invariant
            i <= stats.len(),
            models == stats_views(stats@),
            pair_views(out@) == best_hits(models, i as int),
        decreases stats.len() - i,
    {
        let s = &stats[i];
        let ghost m = models[i as int];
        let ghost done = best_hits(models, i as int);
        assert(m == s@);
        let mut j: usize = 0;
        assert(pair_views(out@) =~= done + best_hits_of(m, 0));
        while j < s.hits.len()
            invariant
                j <= s.hits.len(),
                m == s@,
                pair_views(out@) == done + best_hits_of(m, j as int),
            decreases s.hits.len() - j,
        {
            let hit = &s.hits[j];
            assert(m.hits[j as int] == hit@);
            if hit.score.equals(s.highest_score) || hit.e_value.equals(s.lowest_e_value) {
                let ghost before = pair_views(out@);
                out.push((slice_to_vec(s.name.as_slice()), hit.duplicate()));
                assert(pair_views(out@) =~= before.push((m.name, m.hits[j as int])));
                assert(before.push((m.name, m.hits[j as int])) =~= done + best_hits_of(
                    m,
                    j as int,
                ).push((m.name, m.hits[j as int])));
            }
            j += 1;
        }
        assert(m.hits.len() == s.hits.len());
        i += 1;
    }
    out
}

} // verus!
