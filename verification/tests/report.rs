use log_cruncher::{reduce, Report, Statistics};

fn counters(report: &Report, kind: &str) -> Option<(usize, usize)> {
    report.get(kind).map(|s| (s.cardinality(), s.number_of_bytes()))
}

fn sample(errors: usize, entries: &[(&str, usize, usize)]) -> Report {
    let mut report = Report::new();
    for _ in 0..errors {
        report.on_error();
    }
    for (kind, cardinality, bytes) in entries {
        report.update(kind, *cardinality, *bytes);
    }
    report
}

fn sorted_rows(report: &Report) -> Vec<(String, usize, usize)> {
    let mut rows: Vec<(String, usize, usize)> = report
        .rows()
        .into_iter()
        .map(|(kind, s)| (kind, s.cardinality(), s.number_of_bytes()))
        .collect();
    rows.sort();
    rows
}

#[test]
fn new_statistics_hold_their_arguments() {
    let statistics = Statistics::new(3, 40);
    assert_eq!(statistics.cardinality(), 3);
    assert_eq!(statistics.number_of_bytes(), 40);
}

#[test]
fn statistics_update_adds_to_both_counters() {
    let mut statistics = Statistics::new(3, 40);
    statistics.update(2, 5);
    assert_eq!(statistics.cardinality(), 5);
    assert_eq!(statistics.number_of_bytes(), 45);
}

#[test]
fn new_report_is_empty() {
    let report = Report::new();
    assert_eq!(report.errors(), 0);
    assert_eq!(report.len(), 0);
    assert!(report.rows().is_empty());
    assert!(report.get("a").is_none());
}

#[test]
fn on_error_counts_one() {
    let mut report = Report::new();
    report.on_error();
    report.on_error();
    assert_eq!(report.errors(), 2);
    assert_eq!(report.len(), 0);
}

#[test]
fn update_creates_entry_on_first_occurrence() {
    let mut report = Report::new();
    report.update("login", 1, 17);
    assert_eq!(counters(&report, "login"), Some((1, 17)));
    assert_eq!(report.len(), 1);
    assert_eq!(report.errors(), 0);
}

#[test]
fn update_adds_to_existing_entry() {
    let mut report = Report::new();
    report.update("login", 1, 17);
    report.update("logout", 1, 5);
    report.update("login", 2, 3);
    assert_eq!(counters(&report, "login"), Some((3, 20)));
    assert_eq!(counters(&report, "logout"), Some((1, 5)));
    assert_eq!(report.len(), 2);
}

#[test]
fn update_with_zero_still_creates_the_entry() {
    let mut report = Report::new();
    report.update("quiet", 0, 0);
    assert_eq!(counters(&report, "quiet"), Some((0, 0)));
    assert_eq!(report.len(), 1);
}

#[test]
fn type_names_are_told_apart_by_every_character() {
    let mut report = Report::new();
    report.update("a", 1, 1);
    report.update("ab", 1, 2);
    report.update("", 1, 3);
    report.update("é", 1, 4);
    report.update("e", 1, 5);
    assert_eq!(report.len(), 5);
    assert_eq!(counters(&report, "a"), Some((1, 1)));
    assert_eq!(counters(&report, "ab"), Some((1, 2)));
    assert_eq!(counters(&report, ""), Some((1, 3)));
    assert_eq!(counters(&report, "é"), Some((1, 4)));
    assert_eq!(counters(&report, "e"), Some((1, 5)));
}

#[test]
fn merge_sums_errors_and_counters() {
    let left = sample(2, &[("a", 1, 10), ("b", 4, 7)]);
    let right = sample(3, &[("b", 1, 1), ("c", 2, 20)]);
    let merged = left.merge(right);
    assert_eq!(merged.errors(), 5);
    assert_eq!(
        sorted_rows(&merged),
        vec![("a".to_string(), 1, 10), ("b".to_string(), 5, 8), ("c".to_string(), 2, 20)]
    );
}

#[test]
fn merge_is_commutative() {
    let one = sample(1, &[("a", 1, 10), ("b", 4, 7)]).merge(sample(3, &[("b", 1, 1), ("c", 2, 20)]));
    let other = sample(3, &[("b", 1, 1), ("c", 2, 20)]).merge(sample(1, &[("a", 1, 10), ("b", 4, 7)]));
    assert_eq!(one.errors(), other.errors());
    assert_eq!(sorted_rows(&one), sorted_rows(&other));
}

#[test]
fn merge_is_associative() {
    let a = || sample(1, &[("a", 1, 10)]);
    let b = || sample(0, &[("a", 2, 2), ("b", 1, 1)]);
    let c = || sample(4, &[("b", 5, 50), ("c", 1, 9)]);
    let left = a().merge(b()).merge(c());
    let right = a().merge(b().merge(c()));
    assert_eq!(left.errors(), 5);
    assert_eq!(left.errors(), right.errors());
    assert_eq!(sorted_rows(&left), sorted_rows(&right));
    assert_eq!(
        sorted_rows(&left),
        vec![("a".to_string(), 3, 12), ("b".to_string(), 6, 51), ("c".to_string(), 1, 9)]
    );
}

#[test]
fn merge_with_empty_changes_nothing() {
    let merged = Report::new().merge(sample(2, &[("a", 1, 10), ("b", 4, 7)]));
    assert_eq!(merged.errors(), 2);
    assert_eq!(sorted_rows(&merged), vec![("a".to_string(), 1, 10), ("b".to_string(), 4, 7)]);
    let merged = sample(2, &[("a", 1, 10), ("b", 4, 7)]).merge(Report::new());
    assert_eq!(merged.errors(), 2);
    assert_eq!(sorted_rows(&merged), vec![("a".to_string(), 1, 10), ("b".to_string(), 4, 7)]);
}

#[test]
fn can_merge_tells_when_a_counter_would_overflow() {
    let big = sample(0, &[("a", usize::MAX, 0)]);
    assert!(big.can_merge(&sample(5, &[("b", 1, 1), ("a", 0, 9)])));
    assert!(!big.can_merge(&sample(0, &[("a", 1, 0)])));
    let bytes = sample(0, &[("a", 1, usize::MAX - 1)]);
    assert!(bytes.can_merge(&sample(0, &[("a", 1, 1)])));
    assert!(!bytes.can_merge(&sample(0, &[("a", 1, 2)])));
    let mut many_errors = Report::new();
    many_errors.on_error();
    let errors = {
        let mut r = Report::new();
        r.update("x", usize::MAX, usize::MAX);
        r
    };
    assert!(many_errors.can_merge(&errors));
}

#[test]
fn rows_name_every_type_once() {
    let report = sample(0, &[("a", 1, 1), ("b", 1, 1), ("a", 1, 1), ("c", 1, 1), ("b", 1, 1)]);
    assert_eq!(
        sorted_rows(&report),
        vec![("a".to_string(), 2, 2), ("b".to_string(), 2, 2), ("c".to_string(), 1, 1)]
    );
}

#[test]
fn reduce_of_nothing_is_the_empty_report() {
    let total = reduce(Vec::new()).unwrap();
    assert_eq!(total.errors(), 0);
    assert_eq!(total.len(), 0);
}

#[test]
fn reduce_merges_every_report() {
    let reports = vec![
        sample(1, &[("a", 1, 10)]),
        sample(0, &[("a", 2, 2), ("b", 1, 1)]),
        Report::new(),
        sample(4, &[("b", 5, 50), ("c", 1, 9)]),
    ];
    let total = reduce(reports).unwrap();
    assert_eq!(total.errors(), 5);
    assert_eq!(
        sorted_rows(&total),
        vec![("a".to_string(), 3, 12), ("b".to_string(), 6, 51), ("c".to_string(), 1, 9)]
    );
}

#[test]
fn reduce_does_not_depend_on_the_order_of_the_reports() {
    let make = |order: [usize; 3]| {
        let parts = [
            || sample(1, &[("a", 1, 10), ("z", 1, 1)]),
            || sample(2, &[("a", 2, 2), ("b", 1, 1)]),
            || sample(4, &[("b", 5, 50), ("c", 1, 9)]),
        ];
        let reports: Vec<Report> = order.iter().map(|i| parts[*i]()).collect();
        reduce(reports).unwrap()
    };
    let first = make([0, 1, 2]);
    for order in [[0, 2, 1], [1, 0, 2], [1, 2, 0], [2, 0, 1], [2, 1, 0]] {
        let other = make(order);
        assert_eq!(other.errors(), 7);
        assert_eq!(sorted_rows(&other), sorted_rows(&first));
    }
}

#[test]
fn reduce_tells_when_the_aggregate_does_not_fit() {
    let reports = vec![
        sample(0, &[("a", usize::MAX, 1)]),
        sample(0, &[("b", 1, 1)]),
        sample(0, &[("a", 1, 1)]),
    ];
    assert!(reduce(reports).is_none());
    let reports = vec![sample(0, &[("a", usize::MAX - 1, 1)]), sample(0, &[("a", 1, usize::MAX - 1)])];
    let total = reduce(reports).unwrap();
    assert_eq!(sorted_rows(&total), vec![("a".to_string(), usize::MAX, usize::MAX)]);
}
