//! Queries in the order of their ranked statistic, and alignments in the
//! order of their score.
//!
//! Queries are put in ascending order: a query goes before the first query,
//! among those placed before it, that its statistic is below, and behind all
//! others. Alignments are put in descending order: an alignment goes before
//! the first alignment, among those placed before it, whose score is below
//! its own. Both orders are stable. A NaN is below nothing and nothing is
//! below it, so it goes to the end of what is placed so far.

use vstd::prelude::*;
use crate::inline::alignment_values;
use crate::inline::Alignment;
use crate::inline::AlignmentValue;
use crate::measure::Real;
use crate::select::ranked_value;
use crate::select::ranked_values;
use crate::select::Criterion;
use crate::stats::stats_views;
use crate::stats::QueryStatistics;
use crate::stats::StatsModel;

verus! {

/// The first position at or after `from` whose value `x` is below, or the
/// length of `values` if there is none.
pub open spec fn insertion_point(values: Seq<Real>, x: Real, from: int) -> int
    decreases values.len() - from,
{
    if from < 0 || from >= values.len() {
        values.len() as int
    } else if x.below(values[from]) {
        from
    } else {
        insertion_point(values, x, from + 1)
    }
}

/// Where the statistics `s` go among `placed`.
pub open spec fn place_of(placed: Seq<StatsModel>, s: StatsModel, criterion: Criterion) -> int {
    insertion_point(ranked_values(placed, criterion), ranked_value(s, criterion), 0)
}

/// The first `n` of `stats` in the order of their ranked statistic.
pub open spec fn sorted_stats(stats: Seq<StatsModel>, criterion: Criterion, n: int) -> Seq<
    StatsModel,
>
    decreases n,
{
    if n <= 0 {
        Seq::empty()
    } else {
        let placed = sorted_stats(stats, criterion, n - 1);
        placed.insert(place_of(placed, stats[n - 1], criterion), stats[n - 1])
    }
}

/// Whether no statistic of `placed` is below one that stands before it.
pub open spec fn ordered(placed: Seq<StatsModel>, criterion: Criterion) -> bool {
    forall|i: int, j: int|
        0 <= i < j < placed.len() ==> !ranked_value(#[trigger] placed[j], criterion).below(
            ranked_value(#[trigger] placed[i], criterion),
        )
}

/// An insertion point lies in the sequence or at its end; `x` is below the
/// value there and below no value between `from` and there.
pub proof fn lemma_insertion_point(values: Seq<Real>, x: Real, from: int)
    requires
        0 <= from <= values.len(),
    ensures
        from <= insertion_point(values, x, from) <= values.len(),
        insertion_point(values, x, from) < values.len() ==> x.below(
            values[insertion_point(values, x, from)],
        ),
        forall|k: int| from <= k < insertion_point(values, x, from) ==> !x.below(#[trigger] values[k]),
    decreases values.len() - from,
{
    if from < values.len() && !x.below(values[from]) {
        lemma_insertion_point(values, x, from + 1);
    }
}

/// The sorted queries are as many as the input's, are in order, and hold
/// every query as often as the input does.
pub proof fn lemma_sorted_stats(stats: Seq<StatsModel>, criterion: Criterion, n: int)
    requires
        0 <= n <= stats.len(),
    ensures
        sorted_stats(stats, criterion, n).len() == n,
        ordered(sorted_stats(stats, criterion, n), criterion),
        sorted_stats(stats, criterion, n).to_multiset() == stats.take(n).to_multiset(),
    decreases n,
{
    broadcast use vstd::seq_lib::group_to_multiset_ensures;

    if n == 0 {
        assert(stats.take(0) =~= sorted_stats(stats, criterion, 0));
    } else {
        lemma_sorted_stats(stats, criterion, n - 1);
        let placed = sorted_stats(stats, criterion, n - 1);
        let s = stats[n - 1];
        let x = ranked_value(s, criterion);
        let values = ranked_values(placed, criterion);
        let p = place_of(placed, s, criterion);
        lemma_insertion_point(values, x, 0);
        let out = placed.insert(p, s);
        assert(out.len() == n);
        assert forall|i: int, j: int| 0 <= i < j < out.len() implies !ranked_value(
            #[trigger] out[j],
            criterion,
        ).below(ranked_value(#[trigger] out[i], criterion)) by {
            if j == p {
                assert(out[i] == placed[i]);
                assert(values[i] == ranked_value(placed[i], criterion));
            } else if i == p {
                assert(out[j] == placed[j - 1]);
                assert(values[p] == ranked_value(placed[p], criterion));
                if j - 1 > p {
                    assert(!ranked_value(placed[j - 1], criterion).below(
                        ranked_value(placed[p], criterion),
                    ));
                }
            } else {
                let a = if i < p {
                    i
                } else {
                    i - 1
                };
                let b = if j < p {
                    j
                } else {
                    j - 1
                };
                assert(out[i] == placed[a]);
                assert(out[j] == placed[b]);
            }
        }
        assert(out.remove(p) =~= placed);
        assert(out[p] == s);
        assert(out.remove(p).to_multiset() == out.to_multiset().remove(s));
        assert(out.contains(s));
        assert(out.to_multiset().count(s) > 0);
        assert(out.to_multiset() =~= placed.to_multiset().insert(s));
        assert(stats.take(n) =~= stats.take(n - 1).push(s));
    }
}

/// Puts the queries in the order of their ranked statistic, ascending; queries
/// with equal statistics keep their order.
pub fn sorted_queries(stats: &[QueryStatistics], criterion: Criterion) -> (r: Vec<QueryStatistics>)
    ensures
        stats_views(r@) == sorted_stats(stats_views(stats@), criterion, stats.len() as int),
        r.len() == stats.len(),
        ordered(stats_views(r@), criterion),
        stats_views(r@).to_multiset() == stats_views(stats@).to_multiset(),
{
    let ghost models = stats_views(stats@);
    let mut out: Vec<QueryStatistics> = Vec::new();
    let mut i: usize = 0;
    assert(stats_views(out@) =~= sorted_stats(models, criterion, 0));
    while i < stats.len()
        invariant
            i <= stats.len(),
            models == stats_views(stats@),
            out.len() == i,
            stats_views(out@) == sorted_stats(models, criterion, i as int),
        decreases stats.len() - i,
    {
        let x = stats[i].ranked(criterion);
        let ghost placed = stats_views(out@);
        let ghost values = ranked_values(placed, criterion);
        assert(models[i as int] == stats[i as int]@);
        let mut p: usize = 0;
        while p < out.len() && !x.lt(out[p].ranked(criterion))
            invariant
                p <= out.len(),
                placed == stats_views(out@),
                values == ranked_values(placed, criterion),
                insertion_point(values, x, 0) == insertion_point(values, x, p as int),
            decreases out.len() - p,
        {
            assert(values[p as int] == ranked_value(out[p as int]@, criterion));
            p += 1;
        }
        assert(p < out.len() ==> values[p as int] == ranked_value(out[p as int]@, criterion));
        assert(p as int == place_of(placed, models[i as int], criterion));
        out.insert(p, stats[i].duplicate());
        assert(stats_views(out@) =~= placed.insert(p as int, models[i as int]));
        i += 1;
    }
    proof {
        lemma_sorted_stats(models, criterion, stats.len() as int);
        assert(models.take(stats.len() as int) =~= models);
    }
    out
}

/// The scores of `items`, in order.
pub open spec fn alignment_scores(items: Seq<AlignmentValue>) -> Seq<Real> {
    Seq::new(items.len(), |i: int| items[i].score)
}

/// The first position at or after `from` whose value is below `x`, or the
/// length of `values` if there is none.
pub open spec fn descending_point(values: Seq<Real>, x: Real, from: int) -> int
    decreases values.len() - from,
{
    if from < 0 || from >= values.len() {
        values.len() as int
    } else if values[from].below(x) {
        from
    } else {
        descending_point(values, x, from + 1)
    }
}

/// The first `n` of `items` in the descending order of their scores.
pub open spec fn sorted_alignments(items: Seq<AlignmentValue>, n: int) -> Seq<AlignmentValue>
    decreases n,
{
    if n <= 0 {
        Seq::empty()
    } else {
        let placed = sorted_alignments(items, n - 1);
        placed.insert(
            descending_point(alignment_scores(placed), items[n - 1].score, 0),
            items[n - 1],
        )
    }
}

/// Whether no score of `placed` is above one that stands before it.
pub open spec fn descending(placed: Seq<AlignmentValue>) -> bool {
    forall|i: int, j: int|
        0 <= i < j < placed.len() ==> !(#[trigger] placed[i]).score.below(
            (#[trigger] placed[j]).score,
        )
}

/// A descending insertion point lies in the sequence or at its end; the
/// value there is below `x`, and no value between `from` and there is.
pub proof fn lemma_descending_point(values: Seq<Real>, x: Real, from: int)
    requires
        0 <= from <= values.len(),
    ensures
        from <= descending_point(values, x, from) <= values.len(),
        descending_point(values, x, from) < values.len() ==> values[descending_point(
            values,
            x,
            from,
        )].below(x),
        forall|k: int|
            from <= k < descending_point(values, x, from) ==> !(#[trigger] values[k]).below(x),
    decreases values.len() - from,
{
    if from < values.len() && !values[from].below(x) {
        lemma_descending_point(values, x, from + 1);
    }
}

/// The sorted alignments are as many as the input's, are in descending
/// order, and hold every alignment as often as the input does.
pub proof fn lemma_sorted_alignments(items: Seq<AlignmentValue>, n: int)
    requires
        0 <= n <= items.len(),
    ensures
        sorted_alignments(items, n).len() == n,
        descending(sorted_alignments(items, n)),
        sorted_alignments(items, n).to_multiset() == items.take(n).to_multiset(),
    decreases n,
{
    broadcast use vstd::seq_lib::group_to_multiset_ensures;

    if n == 0 {
        assert(items.take(0) =~= sorted_alignments(items, 0));
    } else {
        lemma_sorted_alignments(items, n - 1);
        let placed = sorted_alignments(items, n - 1);
        let s = items[n - 1];
        let values = alignment_scores(placed);
        let p = descending_point(values, s.score, 0);
        lemma_descending_point(values, s.score, 0);
        let out = placed.insert(p, s);
        assert(out.len() == n);
        assert forall|i: int, j: int| 0 <= i < j < out.len() implies !(#[trigger] out[i]).score.below(
            (#[trigger] out[j]).score,
        ) by {
            if j == p {
                assert(out[i] == placed[i]);
                assert(values[i] == placed[i].score);
            } else if i == p {
                assert(out[j] == placed[j - 1]);
                assert(values[p] == placed[p].score);
                if j - 1 > p {
                    assert(!placed[p].score.below(placed[j - 1].score));
                }
            } else {
                let a = if i < p {
                    i
                } else {
                    i - 1
                };
                let b = if j < p {
                    j
                } else {
                    j - 1
                };
                assert(out[i] == placed[a]);
                assert(out[j] == placed[b]);
            }
        }
        assert(out.remove(p) =~= placed);
        assert(out[p] == s);
        assert(out.remove(p).to_multiset() == out.to_multiset().remove(s));
        assert(out.contains(s));
        assert(out.to_multiset().count(s) > 0);
        assert(out.to_multiset() =~= placed.to_multiset().insert(s));
        assert(items.take(n) =~= items.take(n - 1).push(s));
    }
}

/// Puts the alignments in the descending order of their scores; alignments
/// with equal scores keep their order.
pub fn sort_by_score(items: &[Alignment]) -> (r: Vec<Alignment>)
    ensures
        alignment_values(r@) == sorted_alignments(alignment_values(items@), items.len() as int),
        r.len() == items.len(),
        descending(alignment_values(r@)),
        alignment_values(r@).to_multiset() == alignment_values(items@).to_multiset(),
{
    let ghost models = alignment_values(items@);
    let mut out: Vec<Alignment> = Vec::new();
    let mut i: usize = 0;
    assert(alignment_values(out@) =~= sorted_alignments(models, 0));
    while i < items.len()
        invariant
            i <= items.len(),
            models == alignment_values(items@),
            out.len() == i,
            alignment_values(out@) == sorted_alignments(models, i as int),
        decreases items.len() - i,
    {
        let x = items[i].score;
        let ghost placed = alignment_values(out@);
        let ghost values = alignment_scores(placed);
        assert(models[i as int] == items[i as int]@);
        let mut p: usize = 0;
        while p < out.len() && !out[p].score.lt(x)
            invariant
                p <= out.len(),
                placed == alignment_values(out@),
                values == alignment_scores(placed),
                descending_point(values, x, 0) == descending_point(values, x, p as int),
            decreases out.len() - p,
        {
            assert(values[p as int] == out[p as int]@.score);
            p += 1;
        }
        assert(p < out.len() ==> values[p as int] == out[p as int]@.score);
        out.insert(p, items[i].duplicate());
        assert(alignment_values(out@) =~= placed.insert(p as int, models[i as int]));
        i += 1;
    }
    proof {
        lemma_sorted_alignments(models, items.len() as int);
        assert(models.take(items.len() as int) =~= models);
    }
    out
}

} // verus!
