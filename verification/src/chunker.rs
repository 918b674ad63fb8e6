//! Cutting a byte stream into chunks of whole lines.

use vstd::prelude::*;
use crate::error::CruncherError;
use crate::lines::{
    complete_part, delimiter_free, find_last_delimiter, last_delimiter, lemma_last_delimiter,
    lemma_last_delimiter_at, lemma_last_delimiter_concat, line_aligned, pending_part,
    LINE_DELIMITER,
};

verus! {

/// The chunk size that a run uses unless it is given another.
pub const CHUNK_SIZE: usize = 1048576;

/// Cuts a stream that arrives piece by piece into chunks of whole lines, none
/// longer than the chunk size. Between two pieces it keeps the bytes behind
/// the last delimiter: the start of a line whose end has not arrived.
pub struct Chunker {
    chunk_size: usize,
    pending: Vec<u8>,
}

impl Chunker {
    #[verifier::type_invariant]
    spec fn well_formed(&self) -> bool {
        &&& self.pending@.len() < self.chunk_size
        &&& delimiter_free(self.pending@)
    }

    /// The largest number of bytes that a chunk may hold.
    pub closed spec fn chunk_size(&self) -> nat {
        self.chunk_size as nat
    }

    /// The bytes received behind the last delimiter.
    pub closed spec fn pending(&self) -> Seq<u8> {
        self.pending@
    }

    /// A chunker that has received nothing.
    pub fn new(chunk_size: usize) -> (chunker: Self)
        requires
            chunk_size > 0,
        ensures
            chunker.chunk_size() == chunk_size,
            chunker.pending() == Seq::<u8>::empty(),
    {
        Chunker { chunk_size, pending: Vec::new() }
    }

    /// The number of bytes that the next piece may hold: what fills the
    /// buffer up to the chunk size. It is never zero.
    pub fn room(&self) -> (room: usize)
        ensures
            room == self.chunk_size() - self.pending().len(),
            room > 0,
    {
        proof {
            use_type_invariant(self);
        }
        self.chunk_size - self.pending.len()
    }

    /// Takes the next piece of the stream, read to fill the buffer or up to
    /// the end of the stream.
    ///
    /// An empty piece is the end of the stream: nothing is emitted, and what
    /// is pending is left behind. Otherwise the buffer, which is what was
    /// pending followed by the piece, is cut behind its last delimiter: the
    /// front is emitted as a chunk and the rest is pending. A buffer without
    /// delimiter holds a record that no chunk can hold: that is a failure,
    /// and the chunker stays as it was.
    pub fn feed(&mut self, piece: &[u8]) -> (emitted: Result<Option<Vec<u8>>, CruncherError>)
        requires
            piece@.len() <= old(self).chunk_size() - old(self).pending().len(),
        ensures
            final(self).chunk_size() == old(self).chunk_size(),
            match emitted {
                Ok(None) => piece@.len() == 0 && final(self).pending() == old(self).pending(),
                Ok(Some(chunk)) => {
                    &&& piece@.len() > 0
                    &&& last_delimiter(old(self).pending() + piece@) >= 0
                    &&& chunk@ == complete_part(old(self).pending() + piece@)
                    &&& final(self).pending() == pending_part(old(self).pending() + piece@)
                    &&& 0 < chunk@.len() <= old(self).chunk_size()
                    &&& line_aligned(chunk@)
                },
                Err(error) => {
                    &&& piece@.len() > 0
                    &&& last_delimiter(old(self).pending() + piece@) == -1
                    &&& final(self).pending() == old(self).pending()
                    &&& error matches CruncherError::GenericFailure(text)
                    &&& text@ == "Corrupted file"@
                },
            },
    {
        proof {
            use_type_invariant(&*self);
            lemma_last_delimiter(piece@);
            lemma_last_delimiter(self.pending@);
            lemma_last_delimiter(self.pending@ + piece@);
            lemma_last_delimiter_concat(self.pending@, piece@);
        }
        if piece.len() == 0 {
            return Ok(None);
        }
        match find_last_delimiter(piece) {
            None => Err(CruncherError::corrupted()),
            Some(at) => {
                let ghost buffer = self.pending@ + piece@;
                let chunk_size = self.chunk_size;
                let mut taken = Chunker { chunk_size, pending: Vec::new() };
                std::mem::swap(self, &mut taken);
                let Chunker { chunk_size: _, pending } = taken;
                let mut chunk = pending;
                chunk.extend_from_slice(&piece[0..at + 1]);
                let mut carried: Vec<u8> = Vec::with_capacity(chunk_size);
                carried.extend_from_slice(&piece[at + 1..piece.len()]);
                proof {
                    assert(chunk@ =~= complete_part(buffer));
                    assert(carried@ =~= pending_part(buffer));
                }
                *self = Chunker { chunk_size, pending: carried };
                Ok(Some(chunk))
            },
        }
    }
}

/// Where the buffer that starts at `start` ends once it is filled: a chunk
/// size further, or at the end of the content.
pub open spec fn fill_end(length: int, chunk_size: nat, start: int) -> int {
    if start + chunk_size <= length {
        start + chunk_size
    } else {
        length
    }
}

/// The chunks still to come from `content` when the bytes before `position`
/// were read and those from `start` on are pending; `None` where a filled
/// buffer holds no delimiter.
///
/// Each step fills the buffer, emits it up to its last delimiter and keeps
/// the rest. The stream ends when nothing is left to read.
pub open spec fn chunks_from(content: Seq<u8>, chunk_size: nat, start: int, position: int) -> Option<
    Seq<Seq<u8>>,
>
    decreases content.len() - position,
    when 0 <= start <= position <= content.len() && position - start < chunk_size
{
    if position >= content.len() {
        Some(Seq::empty())
    } else {
        let end = fill_end(content.len() as int, chunk_size, start);
        let buffer = content.subrange(start, end);
        let cut = last_delimiter(buffer);
        if cut < 0 {
            None
        } else {
            match chunks_from(content, chunk_size, start + cut + 1, end) {
                Some(rest) => Some(seq![buffer.take(cut + 1)] + rest),
                None => None,
            }
        }
    }
}

/// The chunks that `content` is cut into when every read fills the buffer,
/// or `None` where some record cannot be held in a chunk.
pub open spec fn chunks_of(content: Seq<u8>, chunk_size: nat) -> Option<Seq<Seq<u8>>> {
    chunks_from(content, chunk_size, 0, 0)
}

/// The bytes of `chunks` one after the other.
pub open spec fn joined(chunks: Seq<Seq<u8>>) -> Seq<u8>
    decreases chunks.len(),
{
    if chunks.len() == 0 {
        Seq::empty()
    } else {
        joined(chunks.drop_last()) + chunks.last()
    }
}

/// Every chunk is a non-empty run of whole lines within the chunk size.
pub open spec fn well_cut(chunks: Seq<Seq<u8>>, chunk_size: nat) -> bool {
    forall|i: int|
        0 <= i < chunks.len() ==> 0 < (#[trigger] chunks[i]).len() <= chunk_size && line_aligned(
            chunks[i],
        )
}

/// A chunk in front of others stands in front of their bytes.
pub proof fn lemma_joined_prepend(chunk: Seq<u8>, rest: Seq<Seq<u8>>)
    ensures
        joined(seq![chunk] + rest) == chunk + joined(rest),
    decreases rest.len(),
{
    let all = seq![chunk] + rest;
    if rest.len() == 0 {
        assert(all.drop_last() =~= Seq::<Seq<u8>>::empty());
        assert(all.last() == chunk);
        assert(joined(all.drop_last()) =~= Seq::<u8>::empty());
        assert(joined(rest) =~= Seq::<u8>::empty());
        assert(joined(all) =~= chunk + joined(rest));
    } else {
        assert(all.drop_last() =~= seq![chunk] + rest.drop_last());
        assert(all.last() == rest.last());
        lemma_joined_prepend(chunk, rest.drop_last());
        assert(joined(all) =~= chunk + joined(rest));
    }
}

/// The state of a run over `content`: whole lines lie before `start`, and
/// what is pending from there to `position` has no delimiter and leaves room.
pub open spec fn in_progress(content: Seq<u8>, chunk_size: nat, start: int, position: int) -> bool {
    &&& 0 <= start <= position <= content.len()
    &&& position - start < chunk_size
    &&& line_aligned(content.take(start))
    &&& delimiter_free(content.subrange(start, position))
}

/// One step of a run leads to a state of the run again, and cuts the buffer
/// into a chunk of whole lines.
pub proof fn lemma_step(content: Seq<u8>, chunk_size: nat, start: int, position: int)
    requires
        in_progress(content, chunk_size, start, position),
        position < content.len(),
    ensures
        ({
            let end = fill_end(content.len() as int, chunk_size, start);
            let buffer = content.subrange(start, end);
            let cut = last_delimiter(buffer);
            &&& position < end <= content.len()
            &&& -1 <= cut < end - start
            &&& cut >= 0 ==> in_progress(content, chunk_size, start + cut + 1, end)
            &&& cut >= 0 ==> content.take(start + cut + 1) == content.take(start) + buffer.take(
                cut + 1,
            )
            &&& cut >= 0 ==> line_aligned(buffer.take(cut + 1))
            &&& cut >= 0 ==> content.subrange(start + cut + 1, end) == pending_part(buffer)
        }),
{
    let end = fill_end(content.len() as int, chunk_size, start);
    let buffer = content.subrange(start, end);
    let cut = last_delimiter(buffer);
    lemma_last_delimiter(buffer);
    if cut >= 0 {
        let next = start + cut + 1;
        assert(content.take(next).last() == buffer[cut]);
        assert(content.subrange(next, end) =~= pending_part(buffer));
        assert(content.take(next) =~= content.take(start) + buffer.take(cut + 1));
        assert(buffer.take(cut + 1).last() == buffer[cut]);
    }
}

/// The chunks of a run that succeeds are well cut, and behind the whole
/// lines already emitted they hold the content up to its last delimiter.
pub proof fn lemma_chunks_from_cover(content: Seq<u8>, chunk_size: nat, start: int, position: int)
    requires
        in_progress(content, chunk_size, start, position),
        chunks_from(content, chunk_size, start, position) is Some,
    ensures
        well_cut(chunks_from(content, chunk_size, start, position)->0, chunk_size),
        content.take(start) + joined(chunks_from(content, chunk_size, start, position)->0)
            == complete_part(content),
    decreases content.len() - position,
{
    let chunks = chunks_from(content, chunk_size, start, position)->0;
    if position >= content.len() {
        assert(content.subrange(start, position) =~= content.skip(start));
        assert forall|i: int| start - 1 < i < content.len() implies content[i] != LINE_DELIMITER by {
            assert(content.subrange(start, position)[i - start] != LINE_DELIMITER);
        }
        if start > 0 {
            assert(content.take(start).last() == content[start - 1]);
        }
        lemma_last_delimiter_at(content, start - 1);
        assert(content.take(start) + joined(chunks) =~= complete_part(content));
    } else {
        lemma_step(content, chunk_size, start, position);
        let end = fill_end(content.len() as int, chunk_size, start);
        let buffer = content.subrange(start, end);
        let cut = last_delimiter(buffer);
        let chunk = buffer.take(cut + 1);
        let rest = chunks_from(content, chunk_size, start + cut + 1, end)->0;
        lemma_chunks_from_cover(content, chunk_size, start + cut + 1, end);
        lemma_joined_prepend(chunk, rest);
        assert(chunks == seq![chunk] + rest);
        assert forall|i: int| 0 <= i < chunks.len() implies 0 < (#[trigger] chunks[i]).len()
            <= chunk_size && line_aligned(chunks[i]) by {
            if i > 0 {
                assert(chunks[i] == rest[i - 1]);
            }
        }
        assert(content.take(start) + (chunk + joined(rest)) =~= (content.take(start) + chunk)
            + joined(rest));
    }
}

/// A run that succeeds cuts the content up to its last delimiter into
/// chunks of whole lines that respect the chunk size. What follows the last
/// delimiter is in no chunk.
pub proof fn lemma_chunks_cover(content: Seq<u8>, chunk_size: nat)
    requires
        chunk_size > 0,
        chunks_of(content, chunk_size) is Some,
    ensures
        well_cut(chunks_of(content, chunk_size)->0, chunk_size),
        joined(chunks_of(content, chunk_size)->0) == complete_part(content),
{
    assert(content.take(0) =~= Seq::<u8>::empty());
    assert(content.subrange(0, 0) =~= Seq::<u8>::empty());
    lemma_chunks_from_cover(content, chunk_size, 0, 0);
    assert(content.take(0) + joined(chunks_of(content, chunk_size)->0) =~= joined(
        chunks_of(content, chunk_size)->0,
    ));
}

/// `content` holds a chunk size of bytes in a row, from `at` on, without a
/// delimiter among them.
pub open spec fn oversized_at(content: Seq<u8>, chunk_size: nat, at: int) -> bool {
    &&& 0 <= at
    &&& at + chunk_size <= content.len()
    &&& delimiter_free(content.subrange(at, at + chunk_size))
}

proof fn lemma_oversized_fails_from(
    content: Seq<u8>,
    chunk_size: nat,
    start: int,
    position: int,
    at: int,
)
    requires
        in_progress(content, chunk_size, start, position),
        oversized_at(content, chunk_size, at),
        start <= at,
    ensures
        chunks_from(content, chunk_size, start, position) is None,
    decreases content.len() - position,
{
    lemma_step(content, chunk_size, start, position);
    let end = fill_end(content.len() as int, chunk_size, start);
    let buffer = content.subrange(start, end);
    let cut = last_delimiter(buffer);
    lemma_last_delimiter(buffer);
    if cut >= 0 {
        assert(content[start + cut] == buffer[cut]);
        if start + cut >= at {
            assert(content.subrange(at, at + chunk_size)[start + cut - at] == content[start + cut]);
        }
        lemma_oversized_fails_from(content, chunk_size, start + cut + 1, end, at);
    }
}

/// A record that fills a whole chunk without reaching its delimiter makes
/// the run fail, wherever it stands in the content.
pub proof fn lemma_oversized_fails(content: Seq<u8>, chunk_size: nat, at: int)
    requires
        chunk_size > 0,
        oversized_at(content, chunk_size, at),
    ensures
        chunks_of(content, chunk_size) is None,
{
    assert(content.take(0) =~= Seq::<u8>::empty());
    assert(content.subrange(0, 0) =~= Seq::<u8>::empty());
    lemma_oversized_fails_from(content, chunk_size, 0, 0, at);
}

proof fn lemma_fitting_succeeds_from(content: Seq<u8>, chunk_size: nat, start: int, position: int)
    requires
        in_progress(content, chunk_size, start, position),
        line_aligned(content),
        forall|at: int| !oversized_at(content, chunk_size, at),
    ensures
        chunks_from(content, chunk_size, start, position) is Some,
    decreases content.len() - position,
{
    if position < content.len() {
        lemma_step(content, chunk_size, start, position);
        let end = fill_end(content.len() as int, chunk_size, start);
        let buffer = content.subrange(start, end);
        let cut = last_delimiter(buffer);
        lemma_last_delimiter(buffer);
        if cut < 0 {
            if end == start + chunk_size {
                assert(oversized_at(content, chunk_size, start));
            } else {
                assert(buffer[end - start - 1] == content.last());
            }
        }
        lemma_fitting_succeeds_from(content, chunk_size, start + cut + 1, end);
    }
}

/// Content of whole lines in which no record fills a whole chunk without
/// reaching its delimiter is cut into chunks without failure.
pub proof fn lemma_fitting_succeeds(content: Seq<u8>, chunk_size: nat)
    requires
        chunk_size > 0,
        line_aligned(content),
        forall|at: int| !oversized_at(content, chunk_size, at),
    ensures
        chunks_of(content, chunk_size) is Some,
{
    assert(content.take(0) =~= Seq::<u8>::empty());
    assert(content.subrange(0, 0) =~= Seq::<u8>::empty());
    lemma_fitting_succeeds_from(content, chunk_size, 0, 0);
}

} // verus!
