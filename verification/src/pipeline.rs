//! A whole run over content held in memory: cut into chunks, count each,
//! add the counts up.

use vstd::prelude::*;
use crate::accounting::{lemma_conservation, records};
use crate::chunker::{
    chunks_from, chunks_of, fill_end, in_progress, joined, lemma_chunks_cover, lemma_step, Chunker,
    CHUNK_SIZE,
};
use crate::error::CruncherError;
use crate::lines::{
    complete_part, last_delimiter, lemma_aligned_is_complete, lemma_last_delimiter,
    lemma_lines_concat, line_aligned, lines, pending_part,
};
use crate::processor::{lemma_tally_concat, tally, ChunkProcessor, SerdeChunkProcessor};
use crate::report::{
    lemma_merge_associative, lemma_merge_bounded, lemma_merge_commutative, lemma_merge_identity,
    Report, ReportView,
};

verus! {

/// The report of `chunks`: the reports of the chunks, merged in order.
pub open spec fn outcome_of_all<P: ChunkProcessor>(processor: &P, chunks: Seq<Seq<u8>>) -> ReportView
    decreases chunks.len(),
{
    if chunks.len() == 0 {
        ReportView::empty()
    } else {
        outcome_of_all(processor, chunks.drop_last()).merge(processor.outcome(chunks.last()))
    }
}

/// Runs `processor` over `content`, cut into chunks of at most `chunk_size`
/// bytes, and returns the sum of what it counted in each chunk.
///
/// The run fails, with no report, where a record cannot be held in a chunk.
pub fn crunch_with<P: ChunkProcessor>(processor: &P, content: &[u8], chunk_size: usize) -> (result:
    Result<Report, CruncherError>)
    requires
        chunk_size > 0,
    ensures
        match result {
            Ok(report) => chunks_of(content@, chunk_size as nat) matches Some(chunks)
                && report@ == outcome_of_all(processor, chunks),
            Err(error) => {
                &&& chunks_of(content@, chunk_size as nat) is None
                &&& error matches CruncherError::GenericFailure(text)
                &&& text@ == "Corrupted file"@
            },
        },
{
    let mut chunker = Chunker::new(chunk_size);
    let mut report = Report::new();
    let mut position: usize = 0;
    let ghost mut emitted: Seq<Seq<u8>> = Seq::empty();
    let ghost mut start: int = 0;
    proof {
        assert(content@.take(0) =~= Seq::<u8>::empty());
        assert(content@.subrange(0, 0) =~= Seq::<u8>::empty());
        assert(emitted + chunks_of(content@, chunk_size as nat)->0 =~= chunks_of(
            content@,
            chunk_size as nat,
        )->0);
    }
    loop
        invariant
            chunker.chunk_size() == chunk_size,
            chunker.pending() == content@.subrange(start, position as int),
            in_progress(content@, chunk_size as nat, start, position as int),
            chunks_of(content@, chunk_size as nat) == chunks_with(
                emitted,
                content@,
                chunk_size as nat,
                start,
                position as int,
            ),
            report@ == outcome_of_all(processor, emitted),
            report@.bounded_by(start as nat),
        ensures
            chunks_of(content@, chunk_size as nat) == Some(emitted),
            report@ == outcome_of_all(processor, emitted),
        decreases content@.len() - position,
    {
        let room = chunker.room();
        let left = content.len() - position;
        let wanted = if room < left {
            room
        } else {
            left
        };
        let piece = &content[position..position + wanted];
        proof {
            let end = fill_end(content@.len() as int, chunk_size as nat, start);
            assert(end == position + wanted);
            assert(chunker.pending() + piece@ =~= content@.subrange(start, end));
            lemma_last_delimiter(content@.subrange(start, end));
        }
        match chunker.feed(piece) {
            Err(error) => {
                return Err(error);
            },
            Ok(None) => {
                proof {
                    assert(emitted + Seq::<Seq<u8>>::empty() =~= emitted);
                }
                break ;
            },
            Ok(Some(chunk)) => {
                proof {
                    let end = fill_end(content@.len() as int, chunk_size as nat, start);
                    let cut = last_delimiter(content@.subrange(start, end));
                    lemma_advance(content@, chunk_size as nat, start, position as int, emitted);
                    processor.lemma_outcome_bounded(chunk@);
                    lemma_merge_bounded(
                        report@,
                        processor.outcome(chunk@),
                        start as nat,
                        chunk@.len(),
                    );
                    assert(emitted.push(chunk@).drop_last() =~= emitted);
                    start = start + cut + 1;
                    emitted = emitted.push(chunk@);
                }
                position = position + wanted;
                processor.process(chunk.as_slice(), &mut report);
            },
        }
    }
    Ok(report)
}

/// The chunks still to come from `content` in the given state, behind those
/// that were `emitted`.
pub open spec fn chunks_with(
    emitted: Seq<Seq<u8>>,
    content: Seq<u8>,
    chunk_size: nat,
    start: int,
    position: int,
) -> Option<Seq<Seq<u8>>> {
    match chunks_from(content, chunk_size, start, position) {
        Some(rest) => Some(emitted + rest),
        None => None,
    }
}

/// One step of a run that cuts a chunk off leads to a state of a run, with
/// the same chunks in all.
proof fn lemma_advance(
    content: Seq<u8>,
    chunk_size: nat,
    start: int,
    position: int,
    emitted: Seq<Seq<u8>>,
)
    requires
        in_progress(content, chunk_size, start, position),
        position < content.len(),
        last_delimiter(content.subrange(start, fill_end(content.len() as int, chunk_size, start)))
            >= 0,
    ensures
        ({
            let end = fill_end(content.len() as int, chunk_size, start);
            let buffer = content.subrange(start, end);
            let cut = last_delimiter(buffer);
            &&& in_progress(content, chunk_size, start + cut + 1, end)
            &&& content.subrange(start + cut + 1, end) == pending_part(buffer)
            &&& start + cut + 1 == start + complete_part(buffer).len()
            &&& chunks_with(emitted.push(complete_part(buffer)), content, chunk_size, start + cut + 1, end)
                == chunks_with(emitted, content, chunk_size, start, position)
        }),
{
    let end = fill_end(content.len() as int, chunk_size, start);
    let buffer = content.subrange(start, end);
    let cut = last_delimiter(buffer);
    let next = start + cut + 1;
    lemma_step(content, chunk_size, start, position);
    match chunks_from(content, chunk_size, next, end) {
        Some(rest) => {
            assert(emitted + (seq![complete_part(buffer)] + rest) =~= emitted.push(
                complete_part(buffer),
            ) + rest);
        },
        None => {},
    }
}

/// What `SerdeChunkProcessor` counts in chunks of whole lines is what it
/// counts in their bytes taken as one.
pub proof fn lemma_chunks_count_as_one(chunks: Seq<Seq<u8>>)
    requires
        forall|i: int| 0 <= i < chunks.len() ==> line_aligned(#[trigger] chunks[i]),
    ensures
        outcome_of_all(&SerdeChunkProcessor(), chunks) == tally(lines(joined(chunks))),
        line_aligned(joined(chunks)),
    decreases chunks.len(),
{
    if chunks.len() > 0 {
        let front = chunks.drop_last();
        assert(forall|i: int| 0 <= i < front.len() ==> front[i] == chunks[i]);
        lemma_chunks_count_as_one(front);
        lemma_lines_concat(joined(front), chunks.last());
        lemma_tally_concat(lines(joined(front)), lines(chunks.last()));
        if chunks.last().len() == 0 {
            assert(joined(front) + chunks.last() =~= joined(front));
        } else {
            assert((joined(front) + chunks.last()).last() == chunks.last().last());
        }
    }
}

/// Counts the records of `content` by type, reading it in chunks of the
/// default size.
///
/// The report covers every line that ends with a delimiter; bytes behind the
/// last delimiter are not counted. The run fails where a record cannot be
/// held in a chunk.
pub fn crunch(content: &[u8]) -> (result: Result<Report, CruncherError>)
    ensures
        match result {
            Ok(report) => chunks_of(content@, CHUNK_SIZE as nat) is Some && report@ == tally(
                lines(complete_part(content@)),
            ),
            Err(error) => {
                &&& chunks_of(content@, CHUNK_SIZE as nat) is None
                &&& error matches CruncherError::GenericFailure(text)
                &&& text@ == "Corrupted file"@
            },
        },
{
    crunch_in_chunks(content, CHUNK_SIZE)
}

/// Counts the records of `content` by type, reading it in chunks of at most
/// `chunk_size` bytes.
pub fn crunch_in_chunks(content: &[u8], chunk_size: usize) -> (result: Result<Report, CruncherError>)
    requires
        chunk_size > 0,
    ensures
        match result {
            Ok(report) => chunks_of(content@, chunk_size as nat) is Some && report@ == tally(
                lines(complete_part(content@)),
            ),
            Err(error) => {
                &&& chunks_of(content@, chunk_size as nat) is None
                &&& error matches CruncherError::GenericFailure(text)
                &&& text@ == "Corrupted file"@
            },
        },
{
    let result = crunch_with(&SerdeChunkProcessor(), content, chunk_size);
    proof {
        if result is Ok {
            lemma_chunks_cover(content@, chunk_size as nat);
            lemma_chunks_count_as_one(chunks_of(content@, chunk_size as nat)->0);
        }
    }
    result
}

/// The size of the chunks does not show in the report: two runs over the
/// same content that both succeed count the same.
pub proof fn lemma_chunk_size_is_transparent(content: Seq<u8>, first: nat, second: nat)
    requires
        first > 0,
        second > 0,
        chunks_of(content, first) is Some,
        chunks_of(content, second) is Some,
    ensures
        outcome_of_all(&SerdeChunkProcessor(), chunks_of(content, first)->0) == outcome_of_all(
            &SerdeChunkProcessor(),
            chunks_of(content, second)->0,
        ),
{
    lemma_chunks_cover(content, first);
    lemma_chunks_cover(content, second);
    lemma_chunks_count_as_one(chunks_of(content, first)->0);
    lemma_chunks_count_as_one(chunks_of(content, second)->0);
}

/// A run that succeeds accounts for every line that ends with a delimiter
/// once, counted under its type or as an error; where the content ends with
/// a delimiter, those are all its lines.
pub proof fn lemma_run_conserves(content: Seq<u8>, chunk_size: nat)
    requires
        chunk_size > 0,
        chunks_of(content, chunk_size) is Some,
    ensures
        records(outcome_of_all(&SerdeChunkProcessor(), chunks_of(content, chunk_size)->0)) == lines(
            complete_part(content),
        ).len(),
        line_aligned(content) ==> records(
            outcome_of_all(&SerdeChunkProcessor(), chunks_of(content, chunk_size)->0),
        ) == lines(content).len(),
{
    lemma_chunks_cover(content, chunk_size);
    lemma_chunks_count_as_one(chunks_of(content, chunk_size)->0);
    lemma_conservation(lines(complete_part(content)));
    if line_aligned(content) {
        lemma_aligned_is_complete(content);
    }
}

/// The report of one worker: what the processor counts in the chunks that
/// `owners` hands to `worker`, merged in the order of the chunks.
pub open spec fn worker_report<P: ChunkProcessor>(
    processor: &P,
    chunks: Seq<Seq<u8>>,
    owners: Seq<nat>,
    worker: nat,
) -> ReportView
    decreases chunks.len(),
{
    if chunks.len() == 0 {
        ReportView::empty()
    } else {
        let before = worker_report(processor, chunks.drop_last(), owners.drop_last(), worker);
        if owners.last() == worker {
            before.merge(processor.outcome(chunks.last()))
        } else {
            before
        }
    }
}

/// The reports of the first `workers` workers, merged.
pub open spec fn reduced<P: ChunkProcessor>(
    processor: &P,
    chunks: Seq<Seq<u8>>,
    owners: Seq<nat>,
    workers: nat,
) -> ReportView
    decreases workers,
{
    if workers == 0 {
        ReportView::empty()
    } else {
        reduced(processor, chunks, owners, (workers - 1) as nat).merge(
            worker_report(processor, chunks, owners, (workers - 1) as nat),
        )
    }
}

/// One more chunk adds its report to the merge of the workers' reports if
/// it goes to one of them, and changes nothing if it goes to none.
proof fn lemma_reduced_step<P: ChunkProcessor>(
    processor: &P,
    chunks: Seq<Seq<u8>>,
    owners: Seq<nat>,
    workers: nat,
)
    requires
        chunks.len() > 0,
    ensures
        reduced(processor, chunks, owners, workers) == if owners.last() < workers {
            reduced(processor, chunks.drop_last(), owners.drop_last(), workers).merge(
                processor.outcome(chunks.last()),
            )
        } else {
            reduced(processor, chunks.drop_last(), owners.drop_last(), workers)
        },
    decreases workers,
{
    if workers > 0 {
        let last = (workers - 1) as nat;
        let added = processor.outcome(chunks.last());
        let merged_before = reduced(processor, chunks.drop_last(), owners.drop_last(), last);
        let report_before = worker_report(processor, chunks.drop_last(), owners.drop_last(), last);
        lemma_reduced_step(processor, chunks, owners, last);
        if owners.last() < last {
            lemma_merge_associative(merged_before, added, report_before);
            lemma_merge_commutative(added, report_before);
            lemma_merge_associative(merged_before, report_before, added);
        } else if owners.last() == last {
            lemma_merge_associative(merged_before, report_before, added);
        }
    }
}

/// Workers that got no chunk report nothing.
proof fn lemma_reduced_nothing<P: ChunkProcessor>(processor: &P, owners: Seq<nat>, workers: nat)
    ensures
        reduced(processor, Seq::<Seq<u8>>::empty(), owners, workers) == ReportView::empty(),
    decreases workers,
{
    if workers > 0 {
        lemma_reduced_nothing(processor, owners, (workers - 1) as nat);
        lemma_merge_identity(ReportView::empty());
    }
}

/// However the chunks are dealt out to the workers, the workers' reports
/// merge to the report of the chunks in their order.
pub proof fn lemma_workers_count_all<P: ChunkProcessor>(
    processor: &P,
    chunks: Seq<Seq<u8>>,
    owners: Seq<nat>,
    workers: nat,
)
    requires
        owners.len() == chunks.len(),
        forall|i: int| 0 <= i < owners.len() ==> owners[i] < workers,
    ensures
        reduced(processor, chunks, owners, workers) == outcome_of_all(processor, chunks),
    decreases chunks.len(),
{
    if chunks.len() == 0 {
        assert(chunks =~= Seq::<Seq<u8>>::empty());
        lemma_reduced_nothing(processor, owners, workers);
    } else {
        let front = owners.drop_last();
        assert forall|i: int| 0 <= i < front.len() implies front[i] < workers by {
            assert(front[i] == owners[i]);
        }
        assert(owners.last() == owners[owners.len() - 1]);
        lemma_workers_count_all(processor, chunks.drop_last(), front, workers);
        lemma_reduced_step(processor, chunks, owners, workers);
    }
}

/// The number of workers does not show in the report: however the chunks
/// are dealt out to any number of workers, their reports merge to the report
/// of a single worker that gets every chunk.
pub proof fn lemma_worker_count_is_transparent<P: ChunkProcessor>(
    processor: &P,
    chunks: Seq<Seq<u8>>,
    owners: Seq<nat>,
    workers: nat,
)
    requires
        owners.len() == chunks.len(),
        forall|i: int| 0 <= i < owners.len() ==> owners[i] < workers,
    ensures
        reduced(processor, chunks, owners, workers) == reduced(
            processor,
            chunks,
            Seq::new(chunks.len(), |i: int| 0nat),
            1,
        ),
{
    lemma_workers_count_all(processor, chunks, owners, workers);
    lemma_workers_count_all(processor, chunks, Seq::new(chunks.len(), |i: int| 0nat), 1);
}

} // verus!
