use alignment_report::decode::decode;
use alignment_report::decode::decode_block;
use alignment_report::decode::Field;
use alignment_report::measure::Real;
use alignment_report::order::sorted_queries;
use alignment_report::segment::segment;
use alignment_report::segment::Policy;
use alignment_report::segment::RawQueryBlock;
use alignment_report::select::get_top_queries;
use alignment_report::select::find_best_value;
use alignment_report::select::select_best;
use alignment_report::select::select_best_hits;
use alignment_report::select::Criterion;
use alignment_report::stats::aggregate;
use alignment_report::stats::get_statistics;
use alignment_report::stats::get_uniques;
use alignment_report::stats::EmptyQuery;
use alignment_report::stats::Hit;
use alignment_report::stats::Query;
use alignment_report::stats::QueryStatistics;

fn num(x: f64) -> Real {
    Real::from_bits(x.to_bits())
}

fn value(r: Real) -> f64 {
    f64::from_bits(r.to_bits())
}

fn hit(id: &str, score: f64, e_value: f64) -> Hit {
    Hit {
        identifier: id.as_bytes().to_vec(),
        category: b"Eukaryota".to_vec(),
        species_count: 1,
        score: num(score),
        e_value: num(e_value),
    }
}

fn query(name: &str, hits: Vec<Hit>) -> Query {
    Query { name: name.as_bytes().to_vec(), hits }
}

fn stats_with(name: &str, highest_score: f64, lowest_e_value: f64) -> QueryStatistics {
    QueryStatistics {
        name: name.as_bytes().to_vec(),
        highest_score: num(highest_score),
        lowest_score: num(0.0),
        highest_e_value: num(lowest_e_value),
        lowest_e_value: num(lowest_e_value),
        hit_count: 1,
        hits: vec![hit("h", highest_score, lowest_e_value)],
    }
}

fn number(text: &[u8]) -> Real {
    num(std::str::from_utf8(text).unwrap().parse::<f64>().unwrap())
}

fn typed(text: &str) -> Vec<Query> {
    let s = segment(text.as_bytes(), Policy::Strict).unwrap();
    let mut out = Vec::new();
    for b in &s.blocks {
        let mut hits = Vec::new();
        for row in &b.raw_rows {
            let f = decode(row).unwrap();
            let score = number(&f.score);
            let e_value = number(&f.e_value);
            hits.push(f.into_hit(score, e_value));
        }
        out.push(Query { name: b.name.clone(), hits });
    }
    out
}

#[test]
fn decode_reads_the_fixed_columns() {
    let f = decode(b"sp|P1|A_HUMAN  Eukaryota  x  12  y  55.1  3e-10").unwrap();
    assert_eq!(f.identifier, b"sp|P1|A_HUMAN".to_vec());
    assert_eq!(f.category, b"Eukaryota".to_vec());
    assert_eq!(f.species_count, 12);
    assert_eq!(f.score, b"55.1".to_vec());
    assert_eq!(f.e_value, b"3e-10".to_vec());
}

#[test]
fn decode_ignores_what_follows_the_e_value() {
    let f = decode(b"a b c 4 d 5 6 7 8").unwrap();
    assert_eq!(f.species_count, 4);
    assert_eq!(f.score, b"5".to_vec());
    assert_eq!(f.e_value, b"6".to_vec());
}

#[test]
fn decode_rejects_a_short_row() {
    let e = decode(b"a b c 4 d 5").unwrap_err();
    assert_eq!(e.field, Field::Row);
    assert_eq!(e.raw_value, b"a b c 4 d 5".to_vec());
}

#[test]
fn decode_rejects_a_bad_species_count() {
    let e = decode(b"a b c many d 5 6").unwrap_err();
    assert_eq!(e.field, Field::SpeciesCount);
    assert_eq!(e.raw_value, b"many".to_vec());
    let e = decode(b"a b c -4 d 5 6").unwrap_err();
    assert_eq!(e.field, Field::SpeciesCount);
    assert_eq!(e.raw_value, b"-4".to_vec());
}

#[test]
fn decode_rejects_a_score_or_an_e_value_that_is_no_number() {
    let e = decode(b"a b c 4 d high 6").unwrap_err();
    assert_eq!(e.field, Field::Score);
    assert_eq!(e.raw_value, b"high".to_vec());
    let e = decode(b"a b c 4 d 5 1e").unwrap_err();
    assert_eq!(e.field, Field::EValue);
    assert_eq!(e.raw_value, b"1e".to_vec());
    let e = decode(b"a b c x d y z").unwrap_err();
    assert_eq!(e.field, Field::SpeciesCount);
    let f = decode(b"a b c 4 d -inf NaN").unwrap();
    assert_eq!(f.score, b"-inf".to_vec());
    assert_eq!(f.e_value, b"NaN".to_vec());
}

#[test]
fn mean_of_equal_values_can_leave_their_range() {
    let q = query("Q1", vec![hit("a", 0.1, 0.1), hit("b", 0.1, 0.1), hit("c", 0.1, 0.1)]);
    let s = q.statistics().unwrap();
    assert_eq!(value(s.highest_e_value), 0.1);
    assert_eq!(value(s.lowest_e_value), 0.1);
    let mean = (0.1f64 + 0.1 + 0.1) / 3.0;
    assert!(mean > value(s.highest_e_value));
}

#[test]
fn into_hit_keeps_fields_and_takes_the_numbers() {
    let f = decode(b"id cat x 3 y 1.5 2e-3").unwrap();
    let h = f.into_hit(num(1.5), num(2e-3));
    assert_eq!(h.identifier, b"id".to_vec());
    assert_eq!(h.category, b"cat".to_vec());
    assert_eq!(h.species_count, 3);
    assert_eq!(value(h.score), 1.5);
    assert_eq!(value(h.e_value), 2e-3);
}

#[test]
fn report_round_trip_reproduces_the_values() {
    let known: Vec<(&str, Vec<(&str, &str, u64, f64, f64)>)> = vec![
        ("Q1", vec![("sp|A", "Bacteria", 4, 55.1, 3e-10), ("sp|B", "Archaea", 17, 41.0, 0.002)]),
        ("Q2", vec![("tr|C", "Fungi", 1, -3.25, 1.2e-05)]),
        ("Q3", vec![]),
    ];
    let mut text = String::from("Report\n\n");
    for (name, hits) in &known {
        text.push_str(&format!("Query= {} some description\n\nLength=99\n", name));
        text.push_str("Sequences producing significant alignments:\n\n");
        for (id, cat, n, score, e) in hits {
            text.push_str(&format!("{}  {}  Name  {}  Taxid  {:?}  {:e}\n", id, cat, n, score, e));
        }
        text.push_str("\n>details\n\n");
    }
    let queries = typed(&text);
    assert_eq!(queries.len(), known.len());
    for (q, (name, hits)) in queries.iter().zip(known.iter()) {
        assert_eq!(q.name, name.as_bytes().to_vec());
        assert_eq!(q.hits.len(), hits.len());
        for (h, (id, cat, n, score, e)) in q.hits.iter().zip(hits.iter()) {
            assert_eq!(h.identifier, id.as_bytes().to_vec());
            assert_eq!(h.category, cat.as_bytes().to_vec());
            assert_eq!(h.species_count, *n);
            assert_eq!(value(h.score), *score);
            assert_eq!(value(h.e_value), *e);
        }
    }
}

#[test]
fn statistics_of_one_query() {
    let q = query("Q1", vec![hit("a", 10.0, 0.01), hit("b", 20.0, 0.2), hit("c", 15.0, 0.05)]);
    let s = q.statistics().unwrap();
    assert_eq!(s.name, b"Q1".to_vec());
    assert_eq!(value(s.highest_score), 20.0);
    assert_eq!(value(s.lowest_score), 0.0);
    assert_eq!(value(s.highest_e_value), 0.2);
    assert_eq!(value(s.lowest_e_value), 0.01);
    assert_eq!(s.hit_count, 3);
    assert_eq!(s.hits.len(), 3);
    assert_eq!(s.hits[1].identifier, b"b".to_vec());
}

#[test]
fn statistics_of_a_query_without_hits_are_refused() {
    let q = query("Q1", vec![]);
    assert_eq!(q.statistics().unwrap_err(), EmptyQuery);
}

#[test]
fn all_negative_scores_leave_the_highest_score_at_zero() {
    let q = query("Q1", vec![hit("a", -5.0, 0.5), hit("b", -2.0, 0.25)]);
    let s = q.statistics().unwrap();
    assert_eq!(value(s.highest_score), 0.0);
    assert_eq!(value(s.lowest_score), -5.0);
    let mean = (-5.0 + -2.0) / 2.0;
    assert!(value(s.lowest_score) <= mean && mean <= value(s.highest_score));
}

#[test]
fn all_positive_scores_leave_the_lowest_score_at_zero() {
    let q = query("Q1", vec![hit("a", 5.0, 0.5), hit("b", 2.0, 0.25)]);
    let s = q.statistics().unwrap();
    assert_eq!(value(s.lowest_score), 0.0);
    assert_eq!(value(s.highest_score), 5.0);
}

#[test]
fn lowest_e_value_is_a_true_minimum() {
    let q = query("Q1", vec![hit("a", 1.0, 0.5), hit("b", 2.0, 0.25), hit("c", 3.0, 4.0)]);
    let s = q.statistics().unwrap();
    assert_eq!(value(s.lowest_e_value), 0.25);
    assert!(value(s.lowest_e_value) != 0.0);
    let q = query("Q2", vec![hit("a", 1.0, 0.5), hit("b", 2.0, 0.0)]);
    assert_eq!(value(q.statistics().unwrap().lowest_e_value), 0.0);
}

#[test]
fn extremes_enclose_the_means() {
    let q = query("Q1", vec![hit("a", 10.0, 0.01), hit("b", 20.0, 0.2), hit("c", 0.5, 3.0)]);
    let s = q.statistics().unwrap();
    let n = s.hit_count as f64;
    let mean_score: f64 = s.hits.iter().map(|h| value(h.score)).sum::<f64>() / n;
    let mean_e: f64 = s.hits.iter().map(|h| value(h.e_value)).sum::<f64>() / n;
    assert!(value(s.lowest_score) <= mean_score && mean_score <= value(s.highest_score));
    assert!(value(s.lowest_e_value) <= mean_e && mean_e <= value(s.highest_e_value));
}

#[test]
fn nan_never_becomes_an_extreme() {
    let q = query("Q1", vec![hit("a", f64::NAN, f64::NAN), hit("b", 2.0, 0.25)]);
    let s = q.statistics().unwrap();
    assert_eq!(value(s.highest_score), 2.0);
    assert_eq!(value(s.lowest_e_value), 0.25);
    assert_eq!(value(s.highest_e_value), 0.25);
}

#[test]
fn uniques_keep_the_first_block_of_each_name() {
    let all = vec![
        query("Q1", vec![hit("a", 1.0, 0.1)]),
        query("Q2", vec![hit("b", 2.0, 0.2)]),
        query("Q1", vec![hit("c", 3.0, 0.3)]),
        query("Q3", vec![]),
        query("Q2", vec![]),
    ];
    let u = get_uniques(&all);
    assert_eq!(u.len(), 3);
    assert_eq!(u[0].name, b"Q1".to_vec());
    assert_eq!(u[0].hits[0].identifier, b"a".to_vec());
    assert_eq!(u[1].name, b"Q2".to_vec());
    assert_eq!(u[1].hits.len(), 1);
    assert_eq!(u[2].name, b"Q3".to_vec());
}

#[test]
fn uniques_of_distinct_names_keep_everything() {
    let all = vec![query("Q1", vec![]), query("Q2", vec![]), query("Q3", vec![])];
    assert_eq!(get_uniques(&all).len(), all.len());
    let all = vec![query("Q1", vec![]), query("Q2", vec![]), query("Q1", vec![])];
    assert!(get_uniques(&all).len() < all.len());
    assert!(get_uniques(&[]).is_empty());
}

#[test]
fn repeated_query_keeps_the_statistics_of_its_first_block() {
    let all = vec![
        query("Q1", vec![hit("a", 10.0, 0.01), hit("b", 20.0, 0.2)]),
        query("Q1", vec![hit("c", 99.0, 0.5), hit("d", 1.0, 1e-30)]),
    ];
    let (kept, stats) = aggregate(&all);
    assert_eq!(kept.len(), 1);
    assert_eq!(stats.len(), 1);
    assert_eq!(stats[0].name, b"Q1".to_vec());
    assert_eq!(value(stats[0].highest_score), 20.0);
    assert_eq!(value(stats[0].lowest_e_value), 0.01);
    assert_eq!(stats[0].hit_count, 2);
}

#[test]
fn repeated_query_in_a_report_keeps_its_first_block() {
    let text = "Query= Q1\nSequences producing significant alignments:\na t x 1 y 10 0.01\nb t x 1 y 20 0.2\n>d\nQuery= Q1\nSequences producing significant alignments:\nc t x 1 y 99 0.5\n>d\n";
    let (kept, stats) = aggregate(&typed(text));
    assert_eq!(kept.len(), 1);
    assert_eq!(stats.len(), 1);
    assert_eq!(value(stats[0].highest_score), 20.0);
}

#[test]
fn empty_table_has_no_statistics() {
    let text = "Query= Q1\nSequences producing significant alignments:\n>d\nQuery= Q2\nSequences producing significant alignments:\na t x 1 y 7.5 0.5\n>d\n";
    let queries = typed(text);
    assert_eq!(queries.len(), 2);
    assert!(queries[0].hits.is_empty());
    let (kept, stats) = aggregate(&queries);
    assert_eq!(kept.len(), 2);
    assert_eq!(stats.len(), 1);
    assert_eq!(stats[0].name, b"Q2".to_vec());
    assert_eq!(value(stats[0].highest_score), 7.5);
    assert!(get_statistics(&[query("Q1", vec![])]).is_empty());
}

#[test]
fn tied_best_scores_are_all_selected() {
    let stats = vec![stats_with("A", 5.0, 0.5), stats_with("B", 9.0, 0.25), stats_with("C", 9.0, 0.125)];
    let best = select_best(&stats, Criterion::Score);
    assert_eq!(best, vec![b"B".to_vec(), b"C".to_vec()]);
    assert_eq!(value(find_best_value(&stats, Criterion::Score)), 9.0);
    let top = get_top_queries(&stats, Criterion::Score);
    assert_eq!(top.len(), 2);
    assert_eq!(top[0].name, b"B".to_vec());
    assert_eq!(top[1].name, b"C".to_vec());
    assert_eq!(value(top[1].lowest_e_value), 0.125);
}

#[test]
fn best_e_value_is_the_least() {
    let stats = vec![stats_with("A", 5.0, 0.5), stats_with("B", 9.0, 0.125), stats_with("C", 9.0, 0.125)];
    let best = select_best(&stats, Criterion::EValue);
    assert_eq!(best, vec![b"B".to_vec(), b"C".to_vec()]);
    assert_eq!(value(find_best_value(&stats, Criterion::EValue)), 0.125);
    let stats = vec![stats_with("A", 5.0, 0.0), stats_with("B", 9.0, -0.0), stats_with("C", 9.0, 1.0)];
    assert_eq!(select_best(&stats, Criterion::EValue), vec![b"A".to_vec(), b"B".to_vec()]);
}

#[test]
fn best_of_nothing_is_nothing() {
    assert!(select_best(&[], Criterion::Score).is_empty());
    assert!(select_best(&[], Criterion::EValue).is_empty());
    assert_eq!(value(find_best_value(&[], Criterion::Score)), f64::NEG_INFINITY);
    assert_eq!(value(find_best_value(&[], Criterion::EValue)), f64::INFINITY);
}

#[test]
fn best_score_may_be_negative() {
    let stats = vec![stats_with("A", -5.0, 0.5), stats_with("B", -9.0, 0.25)];
    assert_eq!(select_best(&stats, Criterion::Score), vec![b"A".to_vec()]);
}

#[test]
fn best_hits_match_on_score_or_on_e_value() {
    let q1 = query("Q1", vec![hit("a", 10.0, 0.01), hit("b", 20.0, 0.2), hit("c", 15.0, 0.05)]);
    let q2 = query("Q2", vec![hit("d", 7.0, 0.5), hit("e", 7.0, 0.75)]);
    let stats = get_statistics(&[q1, q2]);
    let best = select_best_hits(&stats);
    let ids: Vec<(Vec<u8>, Vec<u8>)> =
        best.iter().map(|(n, h)| (n.clone(), h.identifier.clone())).collect();
    assert_eq!(
        ids,
        vec![
            (b"Q1".to_vec(), b"a".to_vec()),
            (b"Q1".to_vec(), b"b".to_vec()),
            (b"Q2".to_vec(), b"d".to_vec()),
            (b"Q2".to_vec(), b"e".to_vec()),
        ]
    );
    assert_eq!(value(best[1].1.score), 20.0);
    assert_eq!(value(best[0].1.e_value), 0.01);
}

#[test]
fn copies_are_equal_to_their_originals() {
    let q = query("Q1", vec![hit("a", 10.0, 0.01), hit("b", 20.0, 0.2)]);
    let c = q.duplicate();
    assert_eq!(c.name, q.name);
    assert_eq!(c.hits.len(), 2);
    assert_eq!(c.hits[1].identifier, b"b".to_vec());
    assert_eq!(value(c.hits[1].score), 20.0);
    let s = q.statistics().unwrap();
    let d = s.duplicate();
    assert_eq!(d.name, s.name);
    assert_eq!(value(d.highest_score), 20.0);
    assert_eq!(d.hit_count, 2);
    assert_eq!(value(d.ranked(Criterion::EValue)), 0.01);
}

#[test]
fn sorted_queries_are_ascending_and_stable() {
    let stats = vec![
        stats_with("A", 9.0, 0.5),
        stats_with("B", 5.0, 0.125),
        stats_with("C", 9.0, 0.25),
        stats_with("D", -1.0, 0.125),
    ];
    let by_score: Vec<Vec<u8>> =
        sorted_queries(&stats, Criterion::Score).into_iter().map(|s| s.name).collect();
    assert_eq!(by_score, vec![b"D".to_vec(), b"B".to_vec(), b"A".to_vec(), b"C".to_vec()]);
    let by_e: Vec<Vec<u8>> =
        sorted_queries(&stats, Criterion::EValue).into_iter().map(|s| s.name).collect();
    assert_eq!(by_e, vec![b"B".to_vec(), b"D".to_vec(), b"C".to_vec(), b"A".to_vec()]);
    assert!(sorted_queries(&[], Criterion::Score).is_empty());
}

#[test]
fn sorted_queries_agree_with_a_stable_sort() {
    let scores = [3.5, -2.0, 7.0, 3.5, 0.0, -0.0, 1e300, 5e-324, 7.0, -1e-9];
    let stats: Vec<QueryStatistics> =
        scores.iter().enumerate().map(|(i, s)| stats_with(&format!("q{}", i), *s, 1.0)).collect();
    let mut expected: Vec<(usize, f64)> = scores.iter().cloned().enumerate().collect();
    expected.sort_by(|a, b| a.1.partial_cmp(&b.1).unwrap());
    let names: Vec<Vec<u8>> =
        sorted_queries(&stats, Criterion::Score).into_iter().map(|s| s.name).collect();
    let expected_names: Vec<Vec<u8>> =
        expected.iter().map(|(i, _)| format!("q{}", i).into_bytes()).collect();
    assert_eq!(names, expected_names);
}

#[test]
fn strict_block_decoding_stops_at_the_first_bad_row() {
    let block = RawQueryBlock {
        name: b"Q1".to_vec(),
        raw_rows: vec![
            b"a t x 1 y 10 0.01".to_vec(),
            b"b t x one y 20 0.2".to_vec(),
            b"c t x 1 y bad 0.2".to_vec(),
        ],
    };
    let e = decode_block(&block, Policy::Strict).unwrap_err();
    assert_eq!(e.field, Field::SpeciesCount);
    assert_eq!(e.raw_value, b"one".to_vec());
}

#[test]
fn lenient_block_decoding_drops_and_counts_bad_rows() {
    let block = RawQueryBlock {
        name: b"Q1".to_vec(),
        raw_rows: vec![
            b"a t x 1 y 10 0.01".to_vec(),
            b"b t x one y 20 0.2".to_vec(),
            b"c t x 1 y bad 0.2".to_vec(),
            b"d t x 4 y 30 0.3".to_vec(),
        ],
    };
    let d = decode_block(&block, Policy::Lenient).unwrap();
    assert_eq!(d.name, b"Q1".to_vec());
    assert_eq!(d.skipped_rows, 2);
    assert_eq!(d.hits.len(), 2);
    assert_eq!(d.hits[0].identifier, b"a".to_vec());
    assert_eq!(d.hits[1].identifier, b"d".to_vec());
    assert_eq!(d.hits[1].species_count, 4);
}

#[test]
fn block_without_rows_decodes_to_no_hits() {
    let block = RawQueryBlock { name: b"Q1".to_vec(), raw_rows: vec![] };
    let d = decode_block(&block, Policy::Strict).unwrap();
    assert!(d.hits.is_empty());
    assert_eq!(d.skipped_rows, 0);
}

#[test]
fn new_values_are_empty() {
    let q = Query::new();
    assert!(q.name.is_empty());
    assert!(q.hits.is_empty());
    assert_eq!(q.statistics().unwrap_err(), EmptyQuery);
    let s = QueryStatistics::new();
    assert!(s.name.is_empty());
    assert!(s.hits.is_empty());
    assert_eq!(s.hit_count, 0);
    assert_eq!(s.highest_score.to_bits(), 0);
    assert_eq!(s.lowest_score.to_bits(), 0);
    assert_eq!(s.highest_e_value.to_bits(), 0);
    assert_eq!(s.lowest_e_value.to_bits(), 0);
}
