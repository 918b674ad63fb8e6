use log_cruncher::json::read_text_field;
use log_cruncher::{
    count_record, crunch, crunch_in_chunks, crunch_with, ChunkProcessor, CruncherError, Report,
    SerdeChunkProcessor, CHUNK_SIZE,
};

fn sorted_rows(report: &Report) -> Vec<(String, usize, usize)> {
    let mut rows: Vec<(String, usize, usize)> = report
        .rows()
        .into_iter()
        .map(|(kind, s)| (kind, s.cardinality(), s.number_of_bytes()))
        .collect();
    rows.sort();
    rows
}

fn row(kind: &str, cardinality: usize, bytes: usize) -> (String, usize, usize) {
    (kind.to_string(), cardinality, bytes)
}

const MIXED: &[u8] = b"{\"type\":\"a\"}\n{\"type\":\"b\",\"x\":[1,2]}\nnot json\n\n{\"foo\":1}\n{\"type\":\"a\",\"n\":1}\n";

#[test]
fn text_field_is_read_from_a_json_object() {
    assert_eq!(read_text_field(b"{\"type\":\"a\"}", "type"), Some("a".to_string()));
    assert_eq!(read_text_field(b" { \"n\": 1, \"type\" : \"login\" } ", "type"), Some("login".to_string()));
    assert_eq!(read_text_field(b"{\"type\":\"a\",\"kind\":\"b\"}", "kind"), Some("b".to_string()));
    assert_eq!(read_text_field(b"{\"type\":\"\"}", "type"), Some(String::new()));
}

#[test]
fn text_field_is_missing_without_a_string_member() {
    assert_eq!(read_text_field(b"{\"foo\":1}", "type"), None);
    assert_eq!(read_text_field(b"{}", "type"), None);
    assert_eq!(read_text_field(b"{\"type\":null}", "type"), None);
    assert_eq!(read_text_field(b"{\"type\":5}", "type"), None);
    assert_eq!(read_text_field(b"{\"type\":[\"a\"]}", "type"), None);
    assert_eq!(read_text_field(b"{\"Type\":\"a\"}", "type"), None);
}

#[test]
fn text_field_is_missing_where_the_bytes_are_no_json_object() {
    assert_eq!(read_text_field(b"not json", "type"), None);
    assert_eq!(read_text_field(b"", "type"), None);
    assert_eq!(read_text_field(b"{\"type\":\"a\"", "type"), None);
    assert_eq!(read_text_field(b"{\"type\":\"a\"} x", "type"), None);
    assert_eq!(read_text_field(b"\"type\"", "type"), None);
    assert_eq!(read_text_field(b"[\"a\"]", "type"), None);
    assert_eq!(read_text_field(b"{\"type\":\"a\xff\"}", "type"), None);
}

#[test]
fn count_record_counts_under_the_type_or_as_an_error() {
    let mut report = Report::new();
    count_record(&mut report, Some("a"), 12);
    count_record(&mut report, None, 8);
    count_record(&mut report, Some("a"), 30);
    assert_eq!(report.errors(), 1);
    assert_eq!(sorted_rows(&report), vec![row("a", 2, 42)]);
}

#[test]
fn processor_counts_each_line_of_a_chunk() {
    let mut report = Report::new();
    SerdeChunkProcessor().process(MIXED, &mut report);
    assert_eq!(report.errors(), 2);
    assert_eq!(sorted_rows(&report), vec![row("a", 2, 12 + 18), row("b", 1, 22)]);
}

#[test]
fn processor_adds_to_what_the_report_holds() {
    let mut report = Report::new();
    report.update("a", 5, 100);
    report.on_error();
    SerdeChunkProcessor().process(b"{\"type\":\"a\"}\nx\n", &mut report);
    assert_eq!(report.errors(), 2);
    assert_eq!(sorted_rows(&report), vec![row("a", 6, 112)]);
}

#[test]
fn processor_counts_a_last_line_without_delimiter() {
    let mut report = Report::new();
    SerdeChunkProcessor().process(b"{\"type\":\"a\"}\n{\"type\":\"b\"}", &mut report);
    assert_eq!(report.errors(), 0);
    assert_eq!(sorted_rows(&report), vec![row("a", 1, 12), row("b", 1, 12)]);
}

#[test]
fn processor_skips_empty_lines() {
    let mut report = Report::new();
    SerdeChunkProcessor().process(b"\n\n\n", &mut report);
    assert_eq!(report.errors(), 0);
    assert_eq!(report.len(), 0);
    SerdeChunkProcessor().process(b"", &mut report);
    assert_eq!(report.errors(), 0);
    SerdeChunkProcessor().process(b"\n \n", &mut report);
    assert_eq!(report.errors(), 1);
}

#[test]
fn carriage_return_counts_as_a_byte_of_the_line() {
    let report = crunch(b"{\"type\":\"a\"}\r\n").unwrap();
    assert_eq!(sorted_rows(&report), vec![row("a", 1, 13)]);
}

#[test]
fn three_records_of_two_types() {
    let report = crunch(b"{\"type\":\"a\"}\n{\"type\":\"b\"}\n{\"type\":\"a\"}\n").unwrap();
    assert_eq!(report.errors(), 0);
    assert_eq!(sorted_rows(&report), vec![row("a", 2, 12 + 12), row("b", 1, 12)]);
}

#[test]
fn line_that_is_not_json_is_an_error() {
    let report = crunch(b"not json\n").unwrap();
    assert_eq!(report.errors(), 1);
    assert_eq!(report.len(), 0);
    assert!(report.rows().is_empty());
}

#[test]
fn json_without_type_is_an_error() {
    let report = crunch(b"{\"foo\":1}\n").unwrap();
    assert_eq!(report.errors(), 1);
    assert_eq!(report.len(), 0);
}

#[test]
fn empty_file_gives_empty_report() {
    let report = crunch(b"").unwrap();
    assert_eq!(report.errors(), 0);
    assert_eq!(report.len(), 0);
    let report = crunch_in_chunks(b"", 1).unwrap();
    assert_eq!(report.errors(), 0);
    assert_eq!(report.len(), 0);
}

#[test]
fn line_longer_than_the_chunk_size_aborts_the_run() {
    let mut content = vec![b'a'; CHUNK_SIZE + 1];
    content.push(b'\n');
    match crunch(&content) {
        Err(CruncherError::GenericFailure(text)) => assert_eq!(text, "Corrupted file"),
        Err(other) => panic!("unexpected: {:?}", other),
        Ok(_) => panic!("a report was produced"),
    }
    let content = b"{\"type\":\"a\"}\n{\"type\":\"a_very_long_type_name\"}\n";
    assert!(matches!(crunch_in_chunks(content, 16), Err(CruncherError::GenericFailure(_))));
}

#[test]
fn line_that_fills_the_chunk_with_its_delimiter_is_accepted() {
    let content = b"{\"type\":\"a\"}\n{\"type\":\"b\"}\n";
    let report = crunch_in_chunks(content, 13).unwrap();
    assert_eq!(sorted_rows(&report), vec![row("a", 1, 12), row("b", 1, 12)]);
    assert!(matches!(crunch_in_chunks(content, 12), Err(CruncherError::GenericFailure(_))));
}

#[test]
fn bytes_behind_the_last_delimiter_are_not_counted() {
    let report = crunch(b"{\"type\":\"a\"}\n{\"type\":\"b\"}").unwrap();
    assert_eq!(report.errors(), 0);
    assert_eq!(sorted_rows(&report), vec![row("a", 1, 12)]);
}

#[test]
fn content_without_any_delimiter_aborts_the_run() {
    assert!(matches!(crunch(b"{\"type\":\"a\"}"), Err(CruncherError::GenericFailure(_))));
}

#[test]
fn pending_bytes_that_a_later_read_does_not_end_abort_the_run() {
    let content = b"a\nbcd";
    assert!(crunch_in_chunks(content, 5).is_ok());
    assert!(matches!(crunch_in_chunks(content, 3), Err(CruncherError::GenericFailure(_))));
}

#[test]
fn chunk_size_does_not_change_the_report() {
    let whole = crunch(MIXED).unwrap();
    assert_eq!(whole.errors(), 2);
    assert_eq!(sorted_rows(&whole), vec![row("a", 2, 30), row("b", 1, 22)]);
    for chunk_size in [23, 24, 25, 31, 36, 40, 64, 77, 1000] {
        let report = crunch_in_chunks(MIXED, chunk_size).unwrap();
        assert_eq!(report.errors(), whole.errors());
        assert_eq!(sorted_rows(&report), sorted_rows(&whole));
    }
}

#[test]
fn every_line_is_accounted_for_once() {
    let report = crunch_in_chunks(MIXED, 40).unwrap();
    let counted: usize = report.rows().iter().map(|(_, s)| s.cardinality()).sum();
    let lines = MIXED.split(|b| *b == b'\n').filter(|l| !l.is_empty()).count();
    assert_eq!(lines, 5);
    assert_eq!(counted + report.errors(), lines);
}

#[test]
fn bytes_of_a_type_are_the_lengths_of_its_lines() {
    let content = b"{\"type\":\"a\"}\n{\"type\":\"a\",\"pad\":\"xxxxxxxx\"}\n{\"type\":\"b\"}\n{\"a\":\"type\"}\n";
    let report = crunch(content).unwrap();
    let a = report.get("a").unwrap();
    assert_eq!(a.cardinality(), 2);
    assert_eq!(a.number_of_bytes(), 12 + 29);
    let b = report.get("b").unwrap();
    assert_eq!(b.number_of_bytes(), 12);
    assert_eq!(report.errors(), 1);
}

#[test]
fn number_of_workers_does_not_change_the_report() {
    let chunks: [&[u8]; 4] = [
        b"{\"type\":\"a\"}\n{\"type\":\"b\"}\n",
        b"oops\n{\"type\":\"a\"}\n",
        b"{\"type\":\"c\"}\n",
        b"{\"type\":\"b\"}\n{}\n",
    ];
    let processor = SerdeChunkProcessor();
    let mut alone = Report::new();
    for chunk in chunks.iter() {
        processor.process(chunk, &mut alone);
    }
    for workers in 1..=5usize {
        let mut reports: Vec<Report> = (0..workers).map(|_| Report::new()).collect();
        for (i, chunk) in chunks.iter().enumerate() {
            processor.process(chunk, &mut reports[(i * 7 + 3) % workers]);
        }
        let merged = reports.into_iter().rev().fold(Report::new(), Report::merge);
        assert_eq!(merged.errors(), 2);
        assert_eq!(merged.errors(), alone.errors());
        assert_eq!(sorted_rows(&merged), sorted_rows(&alone));
    }
    assert_eq!(sorted_rows(&alone), vec![row("a", 2, 24), row("b", 2, 24), row("c", 1, 12)]);
    let all: Vec<u8> = chunks.concat();
    let report = crunch(&all).unwrap();
    assert_eq!(sorted_rows(&report), sorted_rows(&alone));
}

#[test]
fn processor_is_handed_to_the_run() {
    let report = crunch_with(&SerdeChunkProcessor(), MIXED, 40).unwrap();
    assert_eq!(report.errors(), 2);
    assert_eq!(sorted_rows(&report), vec![row("a", 2, 30), row("b", 1, 22)]);
    assert!(crunch_with(&SerdeChunkProcessor(), MIXED, 8).is_err());
}
