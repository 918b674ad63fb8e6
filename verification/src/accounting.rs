//! What the counters of a report add up to.

use vstd::prelude::*;
use crate::processor::{record_type, tally};
use crate::report::ReportView;
use crate::statistics::StatisticsView;

verus! {

/// How many of `lines` hold a record of `kind`; `None` stands for the
/// records that name no type.
pub open spec fn count_of(lines: Seq<Seq<u8>>, kind: Option<Seq<char>>) -> nat
    decreases lines.len(),
{
    if lines.len() == 0 {
        0
    } else if record_type(lines.last()) == kind {
        count_of(lines.drop_last(), kind) + 1
    } else {
        count_of(lines.drop_last(), kind)
    }
}

/// How many bytes those of `lines` hold that hold a record of `kind`.
pub open spec fn bytes_of(lines: Seq<Seq<u8>>, kind: Option<Seq<char>>) -> nat
    decreases lines.len(),
{
    if lines.len() == 0 {
        0
    } else if record_type(lines.last()) == kind {
        bytes_of(lines.drop_last(), kind) + lines.last().len()
    } else {
        bytes_of(lines.drop_last(), kind)
    }
}

/// A report holds an entry for exactly the types that some line names; the
/// entry counts the lines of that type and the bytes of exactly those lines.
pub proof fn lemma_counters_of_type(lines: Seq<Seq<u8>>, kind: Seq<char>)
    ensures
        tally(lines).histogram.contains_key(kind) <==> count_of(lines, Some(kind)) > 0,
        tally(lines).counters(kind).cardinality == count_of(lines, Some(kind)),
        tally(lines).counters(kind).number_of_bytes == bytes_of(lines, Some(kind)),
    decreases lines.len(),
{
    if lines.len() > 0 {
        lemma_counters_of_type(lines.drop_last(), kind);
    }
}

/// The error count of a report is the number of lines that name no type.
pub proof fn lemma_errors_counted(lines: Seq<Seq<u8>>)
    ensures
        tally(lines).errors == count_of(lines, None),
    decreases lines.len(),
{
    if lines.len() > 0 {
        lemma_errors_counted(lines.drop_last());
    }
}

/// The sum of the cardinalities of a histogram with finitely many types.
pub open spec fn total_cardinality(histogram: Map<Seq<char>, StatisticsView>) -> nat
    decreases histogram.dom().len(),
    when histogram.dom().finite()
{
    if histogram.dom().len() == 0 {
        0
    } else {
        let kind = histogram.dom().choose();
        histogram[kind].cardinality + total_cardinality(histogram.remove(kind))
    }
}

/// The number of records that a report accounts for, counted or rejected.
pub open spec fn records(report: ReportView) -> nat {
    report.errors + total_cardinality(report.histogram)
}

/// The sum of cardinalities can be taken from any type first.
proof fn lemma_total_from(histogram: Map<Seq<char>, StatisticsView>, kind: Seq<char>)
    requires
        histogram.dom().finite(),
        histogram.contains_key(kind),
    ensures
        total_cardinality(histogram) == histogram[kind].cardinality + total_cardinality(
            histogram.remove(kind),
        ),
    decreases histogram.dom().len(),
{
    let chosen = histogram.dom().choose();
    if chosen != kind {
        lemma_total_from(histogram.remove(chosen), kind);
        lemma_total_from(histogram.remove(kind), chosen);
        assert(histogram.remove(chosen).remove(kind) =~= histogram.remove(kind).remove(chosen));
    }
}

/// Setting the counters of one type changes the sum by what its cardinality
/// changes.
proof fn lemma_total_insert(
    histogram: Map<Seq<char>, StatisticsView>,
    kind: Seq<char>,
    counters: StatisticsView,
)
    requires
        histogram.dom().finite(),
    ensures
        total_cardinality(histogram.insert(kind, counters)) + (if histogram.contains_key(kind) {
            histogram[kind].cardinality
        } else {
            0
        }) == total_cardinality(histogram) + counters.cardinality,
{
    let after = histogram.insert(kind, counters);
    lemma_total_from(after, kind);
    assert(after.remove(kind) =~= histogram.remove(kind));
    if histogram.contains_key(kind) {
        lemma_total_from(histogram, kind);
    } else {
        assert(histogram.remove(kind) =~= histogram);
    }
}

/// Every line is accounted for once: the cardinalities of all types and the
/// errors add up to the number of lines.
pub proof fn lemma_conservation(lines: Seq<Seq<u8>>)
    ensures
        tally(lines).histogram.dom().finite(),
        records(tally(lines)) == lines.len(),
    decreases lines.len(),
{
    if lines.len() > 0 {
        let before = tally(lines.drop_last());
        lemma_conservation(lines.drop_last());
        match record_type(lines.last()) {
            Some(kind) => {
                lemma_total_insert(
                    before.histogram,
                    kind,
                    before.counters(kind).plus(
                        StatisticsView { cardinality: 1, number_of_bytes: lines.last().len() },
                    ),
                );
            },
            None => {},
        }
    }
}

} // verus!
