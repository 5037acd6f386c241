//! Cutting a file into chunks of whole lines.
//!
//! A chunk is read as a window: the bytes from the chunk's offset up to its nominal length
//! plus a margin, or up to the end of the file. The chunk owns the lines that start in the
//! window after the first terminator (from the very start, for the chunk at offset 0) and
//! that start before or at the first terminator at or after the nominal length.

use vstd::prelude::*;
use vstd::slice::slice_subrange;
use crate::error::ScanError;
use crate::lines::{lemma_record_lines_concat, record_lines, TERMINATOR};
use crate::search::{find_from, lemma_find_from, lemma_find_from_unique};

verus! {

/// The position just behind the first terminator at or after `from`; the end of `s` where
/// there is none.
pub open spec fn cut_after(s: Seq<u8>, from: int) -> int {
    let n = find_from(s, TERMINATOR, from);
    if n < s.len() {
        n + 1
    } else {
        s.len() as int
    }
}

/// Where the lines of a window begin that was read at `offset`.
pub open spec fn window_start(window: Seq<u8>, offset: int) -> int {
    if offset == 0 {
        0
    } else {
        cut_after(window, 0)
    }
}

/// Where the lines of a window end whose chunk has the nominal length `core_len`.
pub open spec fn window_end(window: Seq<u8>, core_len: int) -> int {
    cut_after(window, core_len)
}

/// Whether the window holds a terminator at or after the nominal length.
pub open spec fn terminator_in_margin(window: Seq<u8>, core_len: int) -> bool {
    find_from(window, TERMINATOR, core_len) < window.len()
}

/// Finds the range of whole lines in a window.
///
/// `window` holds the bytes that were read at `offset`, and no others; `core_len` is the
/// chunk's nominal length, and `at_end` says whether the window reaches the end of the file.
/// The range starts at 0 for the first chunk, else behind the first terminator; it ends
/// behind the first terminator at or after `core_len`, or, at the end of the file, with the
/// window. A window without a terminator in its margin is refused unless it reaches the end
/// of the file. Fill at the end of a window is left in the range; the scan of the range makes
/// nothing of it.
pub fn align_chunk(window: &[u8], offset: u64, core_len: usize, at_end: bool) -> (r: Result<
    (usize, usize),
    ScanError,
>)
    ensures
        r is Err <==> !at_end && !terminator_in_margin(window@, core_len as int),
        r matches Err(e) ==> e == ScanError::LineTooLong,
        r matches Ok(range) ==> range.0 == window_start(window@, offset as int) && range.1
            == window_end(window@, core_len as int) && range.0 <= range.1 <= window@.len(),
{
    let n: usize = window.len();
    proof {
        lemma_find_from(window@, TERMINATOR, 0);
        if core_len <= n {
            lemma_find_from(window@, TERMINATOR, core_len as int);
        }
    }
    let start: usize = if offset != 0 {
        match memchr::memchr(TERMINATOR, window) {
            Some(i) => {
                proof {
                    lemma_find_from_unique(window@, TERMINATOR, 0, i as int);
                }
                i + 1
            },
            None => {
                proof {
                    lemma_find_from_unique(window@, TERMINATOR, 0, n as int);
                }
                n
            },
        }
    } else {
        0
    };
    let found: Option<usize> = if core_len < n {
        let margin = slice_subrange(window, core_len, n);
        match memchr::memchr(TERMINATOR, margin) {
            Some(i) => {
                proof {
                    assert forall|j: int| core_len <= j < core_len + i implies window@[j]
                        != TERMINATOR by {
                        assert(margin@[j - core_len] == window@[j]);
                    }
                    assert(margin@[i as int] == window@[core_len + i]);
                    lemma_find_from_unique(window@, TERMINATOR, core_len as int, core_len + i);
                }
                Some(core_len + i)
            },
            None => {
                proof {
                    assert forall|j: int| core_len <= j < n implies window@[j] != TERMINATOR by {
                        assert(margin@[j - core_len] == window@[j]);
                    }
                    lemma_find_from_unique(window@, TERMINATOR, core_len as int, n as int);
                }
                None
            },
        }
    } else {
        None
    };
    match found {
        Some(at) => Ok((start, at + 1)),
        None => {
            if at_end {
                Ok((start, n))
            } else {
                Err(ScanError::LineTooLong)
            }
        },
    }
}

/// The window of the chunk at `offset`: the bytes that a read of `chunk_size + excess` bytes
/// at `offset` brings, which are fewer at the end of the file.
pub open spec fn window_at(file: Seq<u8>, offset: int, chunk_size: int, excess: int) -> Seq<u8> {
    let from = if offset < file.len() {
        offset
    } else {
        file.len() as int
    };
    let to = if offset + chunk_size + excess < file.len() {
        offset + chunk_size + excess
    } else {
        file.len() as int
    };
    file.subrange(from, to)
}

/// Whether the window of the chunk at `offset` reaches the end of the file.
pub open spec fn reaches_end(file: Seq<u8>, offset: int, chunk_size: int, excess: int) -> bool {
    offset + chunk_size + excess >= file.len()
}

/// Whether the chunk at `offset` can be aligned: the line that crosses its nominal end is
/// terminated within the margin, or the window reaches the end of the file.
pub open spec fn chunk_aligned(file: Seq<u8>, offset: int, chunk_size: int, excess: int) -> bool {
    reaches_end(file, offset, chunk_size, excess) || terminator_in_margin(
        window_at(file, offset, chunk_size, excess),
        chunk_size,
    )
}

/// The text that the chunk at `offset` owns: its window, cut to the range of whole lines.
pub open spec fn chunk_text(file: Seq<u8>, offset: int, chunk_size: int, excess: int) -> Seq<u8> {
    let window = window_at(file, offset, chunk_size, excess);
    window.subrange(window_start(window, offset), window_end(window, chunk_size))
}

/// The start of the first line that begins behind a terminator at or after `pos`; 0 for
/// `pos` 0, and the end of the file where no such line begins.
pub open spec fn line_cut(file: Seq<u8>, pos: int) -> int {
    if pos <= 0 {
        0
    } else {
        cut_after(file, pos)
    }
}

/// A cut lies in the file, at its start, at its end or just behind a terminator, and cuts
/// are ordered as the positions they are made for.
pub proof fn lemma_line_cut(file: Seq<u8>, pos: int, later: int)
    requires
        pos <= later,
    ensures
        0 <= line_cut(file, pos) <= line_cut(file, later) <= file.len(),
        line_cut(file, pos) == 0 || line_cut(file, pos) == file.len() || file[line_cut(file, pos)
            - 1] == TERMINATOR,
        pos >= file.len() && pos > 0 ==> line_cut(file, pos) == file.len(),
{
    if 0 < pos < file.len() {
        lemma_find_from(file, TERMINATOR, pos);
    }
    if 0 < later < file.len() {
        lemma_find_from(file, TERMINATOR, later);
    }
    if 0 < pos && later < file.len() {
        let a = find_from(file, TERMINATOR, pos);
        let b = find_from(file, TERMINATOR, later);
        if b < a {
            assert(file[b] == TERMINATOR);
        }
    }
}

/// An aligned chunk owns the text between the cut for its offset and the cut for the next
/// chunk's offset.
pub proof fn lemma_chunk_text(file: Seq<u8>, offset: int, chunk_size: int, excess: int)
    requires
        0 <= offset <= file.len(),
        chunk_size >= 1,
        excess >= 0,
        chunk_aligned(file, offset, chunk_size, excess),
    ensures
        chunk_text(file, offset, chunk_size, excess) == file.subrange(
            line_cut(file, offset),
            line_cut(file, offset + chunk_size),
        ),
{
    let window = window_at(file, offset, chunk_size, excess);
    let n = window.len() as int;
    let from_start = find_from(window, TERMINATOR, 0);
    let from_core = find_from(window, TERMINATOR, chunk_size);
    lemma_find_from(window, TERMINATOR, 0);
    assert forall|j: int| 0 <= j < n implies window[j] == file[offset + j] by {}
    if chunk_size <= n {
        lemma_find_from(window, TERMINATOR, chunk_size);
    }
    if from_core < n {
        assert(file[offset + from_core] == window[from_core]);
        assert forall|j: int| offset + chunk_size <= j < offset + from_core implies file[j]
            != TERMINATOR by {
            assert(window[j - offset] == file[j]);
        }
        lemma_find_from_unique(file, TERMINATOR, offset + chunk_size, offset + from_core);
    } else if offset + chunk_size <= file.len() {
        assert forall|j: int| offset + chunk_size <= j < file.len() implies file[j]
            != TERMINATOR by {
            assert(window[j - offset] == file[j]);
        }
        lemma_find_from_unique(file, TERMINATOR, offset + chunk_size, file.len() as int);
    }
    if offset > 0 {
        if from_start < n {
            assert(file[offset + from_start] == window[from_start]);
            assert forall|j: int| offset <= j < offset + from_start implies file[j]
                != TERMINATOR by {
                assert(window[j - offset] == file[j]);
            }
            lemma_find_from_unique(file, TERMINATOR, offset, offset + from_start);
        } else {
            assert(from_core >= n) by {
                if from_core < n {
                    assert(window[from_core] == TERMINATOR);
                }
            }
            assert forall|j: int| offset <= j < file.len() implies file[j] != TERMINATOR by {
                assert(window[j - offset] == file[j]);
            }
            lemma_find_from_unique(file, TERMINATOR, offset, file.len() as int);
        }
    }
    lemma_line_cut(file, offset, offset + chunk_size);
    assert(offset + window_start(window, offset) == line_cut(file, offset));
    assert(offset + window_end(window, chunk_size) == line_cut(file, offset + chunk_size));
    assert(chunk_text(file, offset, chunk_size, excess) =~= file.subrange(
        line_cut(file, offset),
        line_cut(file, offset + chunk_size),
    ));
}

/// The lines of the first `count` chunks, chunk after chunk.
pub open spec fn lines_of_chunks(file: Seq<u8>, chunk_size: int, excess: int, count: nat) -> Seq<
    Seq<u8>,
>
    decreases count,
{
    if count == 0 {
        Seq::empty()
    } else {
        lines_of_chunks(file, chunk_size, excess, (count - 1) as nat) + record_lines(
            chunk_text(file, (count - 1) * chunk_size, chunk_size, excess),
        )
    }
}

/// Whether the chunk of index `k` can be aligned.
pub open spec fn nth_chunk_aligned(file: Seq<u8>, chunk_size: int, excess: int, k: int) -> bool {
    chunk_aligned(file, k * chunk_size, chunk_size, excess)
}

/// Whether each of the first `count` chunks can be aligned.
pub open spec fn chunks_aligned(file: Seq<u8>, chunk_size: int, excess: int, count: nat) -> bool {
    forall|k: int| 0 <= k < count ==> #[trigger] nth_chunk_aligned(file, chunk_size, excess, k)
}

/// The first chunks hold, between them, the lines of the file up to the cut behind the last
/// of them, each line once and in the order of the file.
pub proof fn lemma_chunks_hold_prefix(file: Seq<u8>, chunk_size: int, excess: int, count: nat)
    requires
        chunk_size >= 1,
        excess >= 0,
        count == 0 || (count - 1) * chunk_size <= file.len(),
        chunks_aligned(file, chunk_size, excess, count),
    ensures
        lines_of_chunks(file, chunk_size, excess, count) == record_lines(
            file.subrange(0, line_cut(file, count * chunk_size)),
        ),
    decreases count,
{
    if count == 0 {
        assert(0 * chunk_size == 0);
        assert(file.subrange(0, 0).len() == 0);
    } else {
        let before = (count - 1) as nat;
        let offset = before * chunk_size;
        assert(offset + chunk_size == count * chunk_size) by (nonlinear_arith)
            requires
                offset == (count - 1) * chunk_size,
        ;
        assert(0 <= offset) by (nonlinear_arith)
            requires
                offset == before * chunk_size,
                chunk_size >= 1,
        ;
        if before > 0 {
            assert((before - 1) * chunk_size <= offset) by (nonlinear_arith)
                requires
                    offset == before * chunk_size,
                    chunk_size >= 1,
            ;
        }
        assert(chunks_aligned(file, chunk_size, excess, before));
        lemma_chunks_hold_prefix(file, chunk_size, excess, before);
        assert(nth_chunk_aligned(file, chunk_size, excess, before as int));
        lemma_chunk_text(file, offset, chunk_size, excess);
        lemma_line_cut(file, offset, offset + chunk_size);
        let c1 = line_cut(file, offset);
        let c2 = line_cut(file, offset + chunk_size);
        let a = file.subrange(0, c1);
        let b = file.subrange(c1, c2);
        assert(a + b == file.subrange(0, c2));
        if c1 == file.len() {
            assert(b.len() == 0);
        }
        lemma_record_lines_concat(a, b);
    }
}

/// Chunk-boundary correctness: where every chunk of a file can be aligned, the lines that
/// the chunks own are exactly the lines that the file holds, each once and in the file's
/// order.
pub proof fn lemma_chunks_hold_every_line_once(
    file: Seq<u8>,
    chunk_size: int,
    excess: int,
    count: nat,
)
    requires
        chunk_size >= 1,
        excess >= 0,
        count == 0 || (count - 1) * chunk_size <= file.len(),
        count * chunk_size >= file.len(),
        chunks_aligned(file, chunk_size, excess, count),
    ensures
        lines_of_chunks(file, chunk_size, excess, count) == record_lines(file),
{
    lemma_chunks_hold_prefix(file, chunk_size, excess, count);
    lemma_line_cut(file, count * chunk_size, count * chunk_size);
    if count == 0 {
        assert(0 * chunk_size == 0);
    } else {
        assert(count * chunk_size > 0) by (nonlinear_arith)
            requires
                count >= 1,
                chunk_size >= 1,
        ;
    }
    assert(file.subrange(0, file.len() as int) == file);
}

} // verus!
