//! Turning a chunk of lines into counts: one record for each line.

use vstd::prelude::*;
use crate::json::{parse_object, text_field, text_member};
use crate::lines::{
    delimiter_free, lemma_lines_are_runs, lemma_lines_concat, lemma_lines_of_run, line_aligned,
    lines, total_length, LINE_DELIMITER,
};
use crate::report::{
    lemma_merge_associative, lemma_merge_fits, lemma_merge_identity, lemma_on_error_is_merge,
    lemma_update_is_merge, Report, ReportView,
};

verus! {

/// The type that the record in `line` names: the text of the member `type`
/// of the JSON object that the line holds.
pub open spec fn record_type(line: Seq<u8>) -> Option<Seq<char>> {
    text_field(line, "type"@)
}

/// The report after one more record of `number_of_bytes` bytes: counted under
/// its type, or as an error where it names none.
pub open spec fn record(report: ReportView, kind: Option<Seq<char>>, number_of_bytes: nat) -> ReportView {
    match kind {
        Some(kind) => report.update(kind, 1, number_of_bytes),
        None => report.on_error(),
    }
}

/// The report of `lines` alone, each counted as one record.
pub open spec fn tally(lines: Seq<Seq<u8>>) -> ReportView
    decreases lines.len(),
{
    if lines.len() == 0 {
        ReportView::empty()
    } else {
        record(tally(lines.drop_last()), record_type(lines.last()), lines.last().len())
    }
}

/// Counting a record is merging with the report of that record alone.
pub proof fn lemma_record_is_merge(report: ReportView, kind: Option<Seq<char>>, number_of_bytes: nat)
    ensures
        record(report, kind, number_of_bytes) == report.merge(
            record(ReportView::empty(), kind, number_of_bytes),
        ),
{
    match kind {
        Some(kind) => lemma_update_is_merge(report, kind, 1, number_of_bytes),
        None => lemma_on_error_is_merge(report),
    }
}

/// The report of two runs of lines is the merge of their reports.
pub proof fn lemma_tally_concat(first: Seq<Seq<u8>>, second: Seq<Seq<u8>>)
    ensures
        tally(first + second) == tally(first).merge(tally(second)),
    decreases second.len(),
{
    if second.len() == 0 {
        assert(first + second =~= first);
        lemma_merge_identity(tally(first));
    } else {
        let line = second.last();
        let kind = record_type(line);
        let single = record(ReportView::empty(), kind, line.len());
        assert((first + second).drop_last() =~= first + second.drop_last());
        assert((first + second).last() == line);
        lemma_tally_concat(first, second.drop_last());
        lemma_record_is_merge(tally(first + second.drop_last()), kind, line.len());
        lemma_record_is_merge(tally(second.drop_last()), kind, line.len());
        lemma_merge_associative(tally(first), tally(second.drop_last()), single);
    }
}

/// Counts one record of `number_of_bytes` bytes in `report`: under `kind`
/// where the record names a type, as an error where it names none.
pub fn count_record(report: &mut Report, kind: Option<&str>, number_of_bytes: usize)
    requires
        record(
            old(report)@,
            match kind {
                Some(kind) => Some(kind@),
                None => None,
            },
            number_of_bytes as nat,
        ).fits(),
    ensures
        final(report)@ == record(
            old(report)@,
            match kind {
                Some(kind) => Some(kind@),
                None => None,
            },
            number_of_bytes as nat,
        ),
{
    match kind {
        Some(kind) => {
            proof {
                let after = old(report)@.update(kind@, 1, number_of_bytes as nat);
                assert(after.histogram.contains_key(kind@));
                assert(after.histogram[kind@].fits());
            }
            report.update(kind, 1, number_of_bytes)
        },
        None => report.on_error(),
    }
}

/// Parses `line` and counts it in `report`.
fn count_line(report: &mut Report, line: &[u8])
    requires
        record(old(report)@, record_type(line@), line@.len()).fits(),
    ensures
        final(report)@ == record(old(report)@, record_type(line@), line@.len()),
{
    match parse_object(line) {
        Ok(object) => count_record(report, text_member(&object, "type"), line.len()),
        Err(_) => count_record(report, None, line.len()),
    }
}

/// A way to turn chunks into counts.
pub trait ChunkProcessor: Send + 'static {
    /// The report of `chunk` alone.
    spec fn outcome(&self, chunk: Seq<u8>) -> ReportView;

    /// No counter of a chunk's report exceeds the length of the chunk.
    proof fn lemma_outcome_bounded(&self, chunk: Seq<u8>)
        ensures
            self.outcome(chunk).bounded_by(chunk.len()),
    ;

    /// Adds the report of `chunk` to `report`.
    fn process(&self, chunk: &[u8], report: &mut Report)
        requires
            old(report)@.merge(self.outcome(chunk@)).fits(),
        ensures
            final(report)@ == old(report)@.merge(self.outcome(chunk@)),
    ;
}

/// Counts each line of a chunk as one JSON record, read with `serde_json`.
pub struct SerdeChunkProcessor();

/// One step of the scan over `chunk`: behind the whole lines before `start`
/// stands a run without delimiter up to `end`, where a delimiter or the end
/// of the chunk follows. The step counts that run as one record where it is
/// not empty, and the counters still fit.
proof fn lemma_scan_step(initial: ReportView, chunk: Seq<u8>, start: int, end: int)
    requires
        0 <= start <= end <= chunk.len(),
        line_aligned(chunk.take(start)),
        delimiter_free(chunk.subrange(start, end)),
        end == chunk.len() || chunk[end] == LINE_DELIMITER,
        initial.merge(tally(lines(chunk))).fits(),
    ensures
        ({
            let run = chunk.subrange(start, end);
            let next = if end == chunk.len() {
                end
            } else {
                end + 1
            };
            let before = initial.merge(tally(lines(chunk.take(start))));
            let after = initial.merge(tally(lines(chunk.take(next))));
            &&& end < chunk.len() ==> line_aligned(chunk.take(next))
            &&& after.fits()
            &&& after == if run.len() > 0 {
                record(before, record_type(run), run.len())
            } else {
                before
            }
        }),
{
    let run = chunk.subrange(start, end);
    let next = if end == chunk.len() {
        end
    } else {
        end + 1
    };
    let done = chunk.take(start);
    let ahead = chunk.take(next);
    let rest = chunk.skip(next);
    let piece = ahead.skip(start);
    assert(ahead =~= done + piece);
    lemma_lines_concat(done, piece);
    lemma_lines_of_run(run);
    if end < chunk.len() {
        assert(piece =~= run.push(LINE_DELIMITER));
    } else {
        assert(piece =~= run);
    }
    assert(lines(piece) == lines(run));
    // The report of everything scanned so far.
    if run.len() > 0 {
        let all = lines(done).push(run);
        assert(lines(done) + seq![run] =~= all);
        assert(all.drop_last() =~= lines(done));
        assert(tally(all) == record(tally(lines(done)), record_type(run), run.len()));
        let single = record(ReportView::empty(), record_type(run), run.len());
        lemma_record_is_merge(tally(lines(done)), record_type(run), run.len());
        lemma_record_is_merge(initial.merge(tally(lines(done))), record_type(run), run.len());
        lemma_merge_associative(initial, tally(lines(done)), single);
    } else {
        assert(lines(done) + Seq::<Seq<u8>>::empty() =~= lines(done));
    }
    // What is left to scan only adds to the counters.
    assert(chunk =~= ahead + rest);
    if end < chunk.len() {
        lemma_lines_concat(ahead, rest);
    } else {
        assert(rest =~= Seq::<u8>::empty());
        assert(lines(ahead) + lines(rest) =~= lines(ahead));
    }
    lemma_tally_concat(lines(ahead), lines(rest));
    lemma_merge_associative(initial, tally(lines(ahead)), tally(lines(rest)));
    lemma_merge_fits(initial.merge(tally(lines(ahead))), tally(lines(rest)));
}

impl ChunkProcessor for SerdeChunkProcessor {
    open spec fn outcome(&self, chunk: Seq<u8>) -> ReportView {
        tally(lines(chunk))
    }

    proof fn lemma_outcome_bounded(&self, chunk: Seq<u8>) {
        lemma_lines_are_runs(chunk);
        lemma_tally_limits(lines(chunk));
    }

    fn process(&self, chunk: &[u8], report: &mut Report) {
        let ghost initial = report@;
        let mut start: usize = 0;
        let mut i: usize = 0;
        assert(chunk@.take(0) =~= Seq::<u8>::empty());
        proof {
            lemma_merge_identity(initial);
        }
        while i < chunk.len()
            invariant
                start <= i <= chunk@.len(),
                line_aligned(chunk@.take(start as int)),
                delimiter_free(chunk@.subrange(start as int, i as int)),
                report@ == initial.merge(tally(lines(chunk@.take(start as int)))),
                initial.merge(tally(lines(chunk@))).fits(),
            decreases chunk@.len() - i,
        {
            if chunk[i] == LINE_DELIMITER {
                proof {
                    lemma_scan_step(initial, chunk@, start as int, i as int);
                }
                if start < i {
                    count_line(report, &chunk[start..i]);
                }
                start = i + 1;
                assert(chunk@.subrange(start as int, start as int) =~= Seq::<u8>::empty());
            } else {
                proof {
                    let narrow = chunk@.subrange(start as int, i as int);
                    let wide = chunk@.subrange(start as int, i + 1);
                    assert forall|j: int| 0 <= j < wide.len() implies wide[j] != LINE_DELIMITER by {
                        if j < narrow.len() {
                            assert(narrow[j] != LINE_DELIMITER);
                        }
                    }
                }
            }
            i += 1;
        }
        proof {
            lemma_scan_step(initial, chunk@, start as int, i as int);
            assert(chunk@.take(chunk@.len() as int) =~= chunk@);
        }
        if start < i {
            count_line(report, &chunk[start..i]);
        }
    }
}

/// A report of lines holds no count above the number of lines and no byte
/// count above their total length.
pub proof fn lemma_tally_limits(lines: Seq<Seq<u8>>)
    ensures
        tally(lines).errors <= lines.len(),
        forall|kind: Seq<char>| #[trigger]
            tally(lines).histogram.contains_key(kind) ==> tally(lines).histogram[kind].cardinality
                <= lines.len() && tally(lines).histogram[kind].number_of_bytes <= total_length(
                lines,
            ),
    decreases lines.len(),
{
    if lines.len() > 0 {
        lemma_tally_limits(lines.drop_last());
    }
}

} // verus!
