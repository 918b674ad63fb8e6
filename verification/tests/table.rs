use log_cruncher::table::{decimal_text, render_table};
use log_cruncher::{Report, Statistics};

#[test]
fn numbers_are_written_in_decimal() {
    assert_eq!(decimal_text(0), "0");
    assert_eq!(decimal_text(7), "7");
    assert_eq!(decimal_text(10), "10");
    assert_eq!(decimal_text(1234567890), "1234567890");
    assert_eq!(decimal_text(usize::MAX), format!("{}", usize::MAX));
}

#[test]
fn empty_table_has_headings_and_error_count() {
    let text = render_table(&Vec::new(), 0);
    let expected = "Type             |      Cardinality |            Bytes|\n\
                    -------------------------------------------------------\n\
                    -------------------------------------------------------\n\n\
                    Number of erroneous objects: 0\n";
    assert_eq!(text, expected);
}

#[test]
fn rows_are_written_in_the_order_given() {
    let rows = vec![
        ("login".to_string(), Statistics::new(2, 34)),
        ("x".to_string(), Statistics::new(12345, 0)),
    ];
    let text = render_table(&rows, 3);
    let mut expected = format!("{: <16} | {: >16} | {: >16}|\n", "Type", "Cardinality", "Bytes");
    expected += "-------------------------------------------------------\n";
    expected += &format!("{: <16} | {: >16} | {: >16}|\n", "login", 2, 34);
    expected += &format!("{: <16} | {: >16} | {: >16}|\n", "x", 12345, 0);
    expected += "-------------------------------------------------------\n\n";
    expected += &format!("Number of erroneous objects: {}\n", 3);
    assert_eq!(text, expected);
}

#[test]
fn long_and_wide_cells_are_not_cut() {
    let rows = vec![
        ("a_type_name_longer_than_the_column".to_string(), Statistics::new(usize::MAX, usize::MAX)),
        ("héllo wörld".to_string(), Statistics::new(1, 1)),
        ("sixteen_chars_ab".to_string(), Statistics::new(1, 1)),
    ];
    let text = render_table(&rows, usize::MAX);
    let mut expected = format!("{: <16} | {: >16} | {: >16}|\n", "Type", "Cardinality", "Bytes");
    expected += "-------------------------------------------------------\n";
    for (kind, statistics) in rows.iter() {
        expected += &format!(
            "{: <16} | {: >16} | {: >16}|\n",
            kind,
            statistics.cardinality(),
            statistics.number_of_bytes()
        );
    }
    expected += "-------------------------------------------------------\n\n";
    expected += &format!("Number of erroneous objects: {}\n", usize::MAX);
    assert_eq!(text, expected);
}

#[test]
fn report_renders_one_line_for_each_type() {
    let mut report = Report::new();
    report.update("b", 1, 12);
    report.update("a", 2, 24);
    report.on_error();
    let text = report.render();
    let lines: Vec<&str> = text.lines().collect();
    assert_eq!(lines.len(), 7);
    assert_eq!(lines[0], "Type             |      Cardinality |            Bytes|");
    assert_eq!(lines[1], "-------------------------------------------------------");
    let mut body = vec![lines[2], lines[3]];
    body.sort();
    assert_eq!(body[0], "a                |                2 |               24|");
    assert_eq!(body[1], "b                |                1 |               12|");
    assert_eq!(lines[4], "-------------------------------------------------------");
    assert_eq!(lines[5], "");
    assert_eq!(lines[6], "Number of erroneous objects: 1");
    assert!(text.ends_with("1\n"));
}
