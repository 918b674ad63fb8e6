//! Lines of a byte buffer: the non-empty runs between line delimiters.

use vstd::prelude::*;

verus! {

/// The byte that ends a record.
pub const LINE_DELIMITER: u8 = 10;

/// No byte of `bytes` is the line delimiter.
pub open spec fn delimiter_free(bytes: Seq<u8>) -> bool {
    forall|i: int| 0 <= i < bytes.len() ==> bytes[i] != LINE_DELIMITER
}

/// `bytes` holds whole lines only: it is empty or ends with the delimiter.
pub open spec fn line_aligned(bytes: Seq<u8>) -> bool {
    bytes.len() == 0 || bytes.last() == LINE_DELIMITER
}

/// Index of the last delimiter in `bytes`, or -1 where it has none.
pub open spec fn last_delimiter(bytes: Seq<u8>) -> int
    decreases bytes.len(),
{
    if bytes.len() == 0 {
        -1
    } else if bytes.last() == LINE_DELIMITER {
        bytes.len() - 1
    } else {
        last_delimiter(bytes.drop_last())
    }
}

/// The part of `bytes` up to and including its last delimiter.
pub open spec fn complete_part(bytes: Seq<u8>) -> Seq<u8> {
    bytes.take(last_delimiter(bytes) + 1)
}

/// The part of `bytes` after its last delimiter.
pub open spec fn pending_part(bytes: Seq<u8>) -> Seq<u8> {
    bytes.skip(last_delimiter(bytes) + 1)
}

/// The lines of `bytes` in order: each maximal run of bytes that are not the
/// delimiter, empty runs left out.
pub open spec fn lines(bytes: Seq<u8>) -> Seq<Seq<u8>>
    decreases bytes.len(),
    via lines_terminates
{
    if bytes.len() == 0 {
        Seq::empty()
    } else {
        let run = pending_part(bytes);
        let before = if last_delimiter(bytes) < 0 {
            Seq::empty()
        } else {
            lines(bytes.take(last_delimiter(bytes)))
        };
        if run.len() > 0 {
            before.push(run)
        } else {
            before
        }
    }
}

#[via_fn]
proof fn lines_terminates(bytes: Seq<u8>) {
    lemma_last_delimiter(bytes);
}

/// `last_delimiter` points at a delimiter that no other delimiter follows.
pub proof fn lemma_last_delimiter(bytes: Seq<u8>)
    ensures
        -1 <= last_delimiter(bytes) < bytes.len(),
        last_delimiter(bytes) >= 0 ==> bytes[last_delimiter(bytes)] == LINE_DELIMITER,
        forall|i: int| last_delimiter(bytes) < i < bytes.len() ==> bytes[i] != LINE_DELIMITER,
        last_delimiter(bytes) == -1 <==> delimiter_free(bytes),
        delimiter_free(pending_part(bytes)),
        line_aligned(complete_part(bytes)),
        complete_part(bytes) + pending_part(bytes) == bytes,
    decreases bytes.len(),
{
    if bytes.len() > 0 && bytes.last() != LINE_DELIMITER {
        let front = bytes.drop_last();
        lemma_last_delimiter(front);
        assert(forall|i: int| 0 <= i < front.len() ==> front[i] == bytes[i]);
        if last_delimiter(front) == -1 {
            assert forall|i: int| 0 <= i < bytes.len() implies bytes[i] != LINE_DELIMITER by {
                if i < front.len() {
                    assert(front[i] != LINE_DELIMITER);
                }
            }
        } else {
            assert(bytes[last_delimiter(front)] == LINE_DELIMITER);
        }
    }
    assert(complete_part(bytes) + pending_part(bytes) =~= bytes);
}

/// Bytes that hold whole lines only are complete, with nothing pending.
pub proof fn lemma_aligned_is_complete(bytes: Seq<u8>)
    requires
        line_aligned(bytes),
    ensures
        complete_part(bytes) == bytes,
        pending_part(bytes) == Seq::<u8>::empty(),
{
    lemma_last_delimiter(bytes);
    assert(complete_part(bytes) =~= bytes);
    assert(pending_part(bytes) =~= Seq::<u8>::empty());
}

/// An index that holds a delimiter with none after it is the last delimiter;
/// -1 is, where there is no delimiter at all.
pub proof fn lemma_last_delimiter_at(bytes: Seq<u8>, at: int)
    requires
        -1 <= at < bytes.len(),
        at >= 0 ==> bytes[at] == LINE_DELIMITER,
        forall|i: int| at < i < bytes.len() ==> bytes[i] != LINE_DELIMITER,
    ensures
        last_delimiter(bytes) == at,
{
    lemma_last_delimiter(bytes);
}

/// The last delimiter of a concatenation is that of the second part, or else
/// that of the first.
pub proof fn lemma_last_delimiter_concat(a: Seq<u8>, b: Seq<u8>)
    ensures
        last_delimiter(a + b) == if last_delimiter(b) >= 0 {
            a.len() + last_delimiter(b)
        } else {
            last_delimiter(a)
        },
{
    lemma_last_delimiter(a);
    lemma_last_delimiter(b);
    let at = if last_delimiter(b) >= 0 {
        a.len() + last_delimiter(b)
    } else {
        last_delimiter(a)
    };
    assert forall|i: int| at < i < (a + b).len() implies (a + b)[i] != LINE_DELIMITER by {
        if i >= a.len() {
            assert(b[i - a.len()] != LINE_DELIMITER);
        }
    }
    lemma_last_delimiter_at(a + b, at);
}

/// A run without delimiter is one line, or none where it is empty; a
/// delimiter behind it changes nothing.
pub proof fn lemma_lines_of_run(run: Seq<u8>)
    requires
        delimiter_free(run),
    ensures
        lines(run) == if run.len() > 0 {
            seq![run]
        } else {
            Seq::empty()
        },
        lines(run.push(LINE_DELIMITER)) == lines(run),
{
    lemma_last_delimiter(run);
    assert(pending_part(run) =~= run);
    if run.len() > 0 {
        assert(lines(run) =~= seq![run]);
    }
    let ended = run.push(LINE_DELIMITER);
    lemma_last_delimiter_at(ended, run.len() as int);
    assert(pending_part(ended) =~= Seq::<u8>::empty());
    assert(ended.take(run.len() as int) =~= run);
}

/// Behind whole lines, more bytes add their own lines and change none.
pub proof fn lemma_lines_concat(a: Seq<u8>, b: Seq<u8>)
    requires
        line_aligned(a),
    ensures
        lines(a + b) == lines(a) + lines(b),
    decreases b.len(),
{
    if b.len() == 0 {
        assert(a + b =~= a);
        assert(lines(a) + lines(b) =~= lines(a));
    } else if a.len() == 0 {
        assert(a + b =~= b);
        assert(lines(a) + lines(b) =~= lines(b));
    } else {
        let whole = a + b;
        lemma_last_delimiter(a);
        lemma_last_delimiter(b);
        lemma_last_delimiter_concat(a, b);
        lemma_last_delimiter_at(a, a.len() - 1);
        let d = last_delimiter(b);
        if d >= 0 {
            assert(pending_part(whole) =~= pending_part(b));
            assert(whole.take(a.len() + d) =~= a + b.take(d));
            lemma_lines_concat(a, b.take(d));
            if pending_part(b).len() > 0 {
                assert((lines(a) + lines(b.take(d))).push(pending_part(b)) =~= lines(a) + lines(
                    b.take(d),
                ).push(pending_part(b)));
            }
        } else {
            assert(pending_part(whole) =~= b);
            assert(pending_part(b) =~= b);
            assert(pending_part(a) =~= Seq::<u8>::empty());
            assert(whole.take(a.len() - 1) =~= a.take(a.len() - 1));
            assert(lines(b) =~= seq![b]);
            assert(lines(a).push(b) =~= lines(a) + seq![b]);
        }
    }
}

/// Every line is a non-empty run without delimiter, and the lines together
/// hold no more bytes than the buffer.
pub proof fn lemma_lines_are_runs(bytes: Seq<u8>)
    ensures
        forall|i: int|
            0 <= i < lines(bytes).len() ==> (#[trigger] lines(bytes)[i]).len() > 0
                && delimiter_free(lines(bytes)[i]),
        total_length(lines(bytes)) <= bytes.len(),
        lines(bytes).len() <= bytes.len(),
    decreases bytes.len(),
{
    if bytes.len() > 0 {
        lemma_last_delimiter(bytes);
        let d = last_delimiter(bytes);
        let run = pending_part(bytes);
        if d >= 0 {
            lemma_lines_are_runs(bytes.take(d));
        }
        let before = if d < 0 {
            Seq::empty()
        } else {
            lines(bytes.take(d))
        };
        assert(run.len() == bytes.len() - d - 1);
        if run.len() > 0 {
            let all = before.push(run);
            assert(all.drop_last() =~= before);
            assert(all.last() == run);
            assert(lines(bytes) == all);
            assert(total_length(all) == total_length(before) + run.len());
            assert forall|i: int| 0 <= i < all.len() implies (#[trigger] all[i]).len() > 0
                && delimiter_free(all[i]) by {
                if i < before.len() {
                    assert(all[i] == before[i]);
                }
            }
        } else {
            assert(lines(bytes) == before);
        }
    }
}

/// The number of bytes that `lines` hold together.
pub open spec fn total_length(lines: Seq<Seq<u8>>) -> nat
    decreases lines.len(),
{
    if lines.len() == 0 {
        0
    } else {
        total_length(lines.drop_last()) + lines.last().len()
    }
}

/// Finds the last delimiter of `bytes`.
pub fn find_last_delimiter(bytes: &[u8]) -> (found: Option<usize>)
    ensures
        match found {
            Some(at) => at == last_delimiter(bytes@),
            None => last_delimiter(bytes@) == -1,
        },
{
    let mut i: usize = bytes.len();
    while i > 0
        invariant
            i <= bytes@.len(),
            forall|j: int| i <= j < bytes@.len() ==> bytes@[j] != LINE_DELIMITER,
        decreases i,
    {
        i -= 1;
        if bytes[i] == LINE_DELIMITER {
            proof {
                lemma_last_delimiter_at(bytes@, i as int);
            }
            return Some(i);
        }
    }
    proof {
        lemma_last_delimiter_at(bytes@, -1);
    }
    None
}

} // verus!
