use keystats::aggregate_lines;
use keystats::fold_lines;
use keystats::merge_tables;
use keystats::shard_lines;
use keystats::Aggregate;
use keystats::AggregateTable;

fn lines_of(text: &str) -> Vec<Vec<u8>> {
    text.lines().map(|l| l.as_bytes().to_vec()).collect()
}

fn key(s: &str) -> Vec<u8> {
    s.as_bytes().to_vec()
}

#[test]
fn test_measurement() {
    // values 1.0, 3.0, 4.0, 5.0, 8.0 in tenths
    let values: Vec<i64> = vec![10, 30, 40, 50, 80];

    let mut measurement = Aggregate::new(values[0]);

    for value in values.iter().skip(1) {
        measurement.record(*value);
    }

    let expected_min = *values.iter().min().unwrap();
    let expected_max = *values.iter().max().unwrap();
    let expected_average = values.iter().sum::<i64>() as f64 / values.len() as f64;

    assert_eq!(expected_min, measurement.min);
    assert_eq!(expected_max, measurement.max);
    assert_eq!(expected_average, measurement.sum as f64 / measurement.count as f64);
}

#[test]
fn record_fold_matches_merged_partitions() {
    let vals: Vec<i64> = vec![21, -5, 130, 0, 77, 77];
    let mut whole = Aggregate::new(vals[0]);
    for v in vals.iter().skip(1) {
        whole.record(*v);
    }

    // the same values, split into three parts and merged out of order
    let mut p1 = Aggregate::new(21);
    p1.record(-5);
    let p2 = Aggregate::new(130);
    let mut p3 = Aggregate::new(0);
    p3.record(77);
    p3.record(77);

    let mut merged = p3;
    merged.merge(p1);
    merged.merge(p2);

    assert_eq!(whole.min, merged.min);
    assert_eq!(whole.max, merged.max);
    assert_eq!(whole.sum, merged.sum);
    assert_eq!(whole.count, merged.count);
}

#[test]
fn statistics_are_exact() {
    let vals: Vec<i64> = vec![-300, 45, 0, 45, 9999, -300, 1];
    let mut a = Aggregate::new(vals[0]);
    for v in vals.iter().skip(1) {
        a.record(*v);
    }
    assert_eq!(a.min, -300);
    assert_eq!(a.max, 9999);
    assert_eq!(a.sum, vals.iter().sum::<i64>() as i128);
    assert_eq!(a.count, vals.len() as u64);
    let mean = a.sum as f64 / a.count as f64;
    let expected = vals.iter().sum::<i64>() as f64 / vals.len() as f64;
    assert!((mean - expected).abs() < 1e-9);
}

#[test]
fn merging_empty_table_changes_nothing() {
    let mut t = AggregateTable::new();
    t.update(key("a"), 10);
    t.update(key("b"), -20);
    t.update(key("a"), 30);

    let empty = AggregateTable::new();
    t.merge_into(empty);

    assert_eq!(t.len(), 2);
    assert_eq!(t.records(), 3);
    let a = t.get(&key("a")).unwrap();
    assert_eq!(a.min, 10);
    assert_eq!(a.max, 30);
    assert_eq!(a.sum, 40);
    assert_eq!(a.count, 2);
    let b = t.get(&key("b")).unwrap();
    assert_eq!(b.min, -20);
    assert_eq!(b.max, -20);
    assert_eq!(b.count, 1);
}

#[test]
fn amsterdam_scenario() {
    let input = "Amsterdam;2.1\nAmsterdam;4.6\nAmsterdam;12.8\nAmsterdam;12.7\n";
    for workers in [1usize, 4, 16] {
        let lines = lines_of(input);
        let t = aggregate_lines(&lines, workers);
        assert_eq!(t.len(), 1);
        let a = t.get(&key("Amsterdam")).unwrap();
        assert_eq!(a.min, 21);
        assert_eq!(a.max, 128);
        assert_eq!(a.count, 4);
        assert_eq!(a.sum, 322);
        let mean = a.sum as f64 / a.count as f64 / 10.0;
        assert!((mean - 8.05).abs() < 1e-9);
    }
}

#[test]
fn malformed_line_is_reported_and_excluded() {
    let input = "Rome;not-a-number\nParis;1.5\nParis;2.5\nOslo\n";
    let lines = lines_of(input);
    let (t, bad) = fold_lines(&lines);

    assert_eq!(bad.len(), 2);
    assert_eq!(bad[0], key("Rome;not-a-number"));
    assert_eq!(bad[1], key("Oslo"));

    assert_eq!(t.len(), 1);
    assert!(t.get(&key("Rome")).is_none());
    assert!(t.get(&key("Oslo")).is_none());
    let p = t.get(&key("Paris")).unwrap();
    assert_eq!(p.min, 15);
    assert_eq!(p.max, 25);
    assert_eq!(p.count, 2);
    assert_eq!(p.sum, 40);
}

#[test]
fn worker_count_does_not_change_results() {
    let input = "a;1.0\nb;2.5\na;-3.0\nc;0.4\nb;9.9\na;7.7\nd;-0.1\nc;100.0\n";
    let lines = lines_of(input);
    let t1 = aggregate_lines(&lines, 1);
    for workers in [4usize, 16] {
        let t2 = aggregate_lines(&lines, workers);
        assert_eq!(t1.len(), t2.len());
        assert_eq!(t1.records(), t2.records());
        for e in &t1.entries {
            let b = t2.get(&e.key).expect("key missing under another worker count");
            assert_eq!(e.agg.min, b.min);
            assert_eq!(e.agg.max, b.max);
            assert_eq!(e.agg.sum, b.sum);
            assert_eq!(e.agg.count, b.count);
        }
    }
}

#[test]
fn each_key_appears_exactly_once() {
    let input = "x;1.0\ny;2.0\nx;3.0\nz;4.0\ny;5.0\nx;6.0\n";
    let lines = lines_of(input);
    let t = aggregate_lines(&lines, 3);
    assert_eq!(t.len(), 3);
    for (i, e) in t.entries.iter().enumerate() {
        for e2 in t.entries.iter().skip(i + 1) {
            assert_ne!(e.key, e2.key);
        }
    }
    assert!(t.get(&key("w")).is_none());
    assert_eq!(t.get(&key("x")).unwrap().count, 3);
    assert_eq!(t.get(&key("y")).unwrap().count, 2);
    assert_eq!(t.get(&key("z")).unwrap().count, 1);
}

#[test]
fn merge_tables_combines_partial_tables() {
    let (t1, bad1) = fold_lines(&lines_of("a;1.0\nb;2.0\n"));
    let (t2, bad2) = fold_lines(&lines_of("a;3.0\n"));
    assert!(bad1.is_empty());
    assert!(bad2.is_empty());

    let m = merge_tables(vec![t1, t2]);
    assert_eq!(m.len(), 2);
    assert_eq!(m.records(), 3);
    let a = m.get(&key("a")).unwrap();
    assert_eq!(a.min, 10);
    assert_eq!(a.max, 30);
    assert_eq!(a.sum, 40);
    assert_eq!(a.count, 2);
    let b = m.get(&key("b")).unwrap();
    assert_eq!(b.count, 1);
    assert_eq!(b.sum, 20);
}

#[test]
fn merge_tables_of_nothing_is_empty() {
    let m = merge_tables(Vec::new());
    assert_eq!(m.len(), 0);
    assert_eq!(m.records(), 0);
}

#[test]
fn empty_input_yields_empty_table() {
    let lines: Vec<Vec<u8>> = Vec::new();
    let t = aggregate_lines(&lines, 4);
    assert_eq!(t.len(), 0);
    assert_eq!(t.records(), 0);
    assert!(t.get(&key("anything")).is_none());
}

#[test]
fn dispatcher_is_round_robin() {
    let lines = lines_of("a;1.0\nb;2.0\nc;3.0\nd;4.0\ne;5.0\n");
    let shards = shard_lines(&lines, 2);
    assert_eq!(shards.len(), 2);
    assert_eq!(shards[0].len(), 3);
    assert_eq!(shards[1].len(), 2);
    assert_eq!(shards[0][0], key("a;1.0"));
    assert_eq!(shards[0][1], key("c;3.0"));
    assert_eq!(shards[0][2], key("e;5.0"));
    assert_eq!(shards[1][0], key("b;2.0"));
    assert_eq!(shards[1][1], key("d;4.0"));
}
