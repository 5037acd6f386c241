//! Scanning a whole file that is held in memory, chunk by chunk and worker by worker.

use vstd::prelude::*;
use vstd::slice::slice_subrange;
use crate::aggregate::{
    aggregate, lemma_aggregate_concat, lemma_values_for_len, merge_all_tables, merge_tables,
    Observation, Table,
};
use crate::chunk::{
    chunk_aligned, chunk_text, chunks_aligned, lemma_chunks_hold_every_line_once,
    lemma_chunks_hold_prefix, lemma_line_cut, line_cut, lines_of_chunks, nth_chunk_aligned,
    reaches_end, window_at,
};
use crate::error::ScanError;
use crate::lines::{
    all_parse, first_failure, lemma_record_lines_concat, lemma_record_lines_len, observations,
    parse_line, record_lines, TERMINATOR,
};
use crate::search::{find_from, lemma_find_from};
use crate::table::{
    counts_bounded, counts_fit, empty_table, merge_all, table_views, AggregationTable,
};
use crate::worker::{window_lines, worker_offsets, ChunkPlan, Worker};

verus! {

/// The lines that the chunk of index `k` owns.
pub open spec fn chunk_lines(file: Seq<u8>, plan: ChunkPlan, k: int) -> Seq<Seq<u8>> {
    record_lines(chunk_text(file, k * plan.chunk_size(), plan.chunk_size(), plan.excess()))
}

/// Whether the chunk of index `k` is taken in: it can be aligned and its lines are records.
pub open spec fn chunk_accepted(file: Seq<u8>, plan: ChunkPlan, k: int) -> bool {
    &&& chunk_aligned(file, k * plan.chunk_size(), plan.chunk_size(), plan.excess())
    &&& all_parse(chunk_lines(file, plan, k))
}

/// Whether `e` is the reason for which the chunk of index `k` is refused.
pub open spec fn chunk_refused(file: Seq<u8>, plan: ChunkPlan, k: int, e: ScanError) -> bool {
    if !chunk_aligned(file, k * plan.chunk_size(), plan.chunk_size(), plan.excess()) {
        e == ScanError::LineTooLong
    } else {
        first_failure(chunk_lines(file, plan, k), e)
    }
}

/// The observations of the chunks from index `from` up to, not including, index `to`.
pub open spec fn chunk_observations(file: Seq<u8>, plan: ChunkPlan, from: int, to: int) -> Seq<
    Observation,
>
    decreases to - from,
{
    if to <= from {
        Seq::empty()
    } else {
        chunk_observations(file, plan, from, to - 1) + observations(
            chunk_lines(file, plan, to - 1),
        )
    }
}

/// The observations of lines put together are the observations of each part; the whole is
/// made of records where both parts are.
pub proof fn lemma_observations_concat(a: Seq<Seq<u8>>, b: Seq<Seq<u8>>)
    ensures
        observations(a + b) == observations(a) + observations(b),
        all_parse(a + b) <==> all_parse(a) && all_parse(b),
{
    assert(observations(a + b) =~= observations(a) + observations(b));
    if all_parse(a + b) {
        assert forall|i: int| 0 <= i < a.len() implies (#[trigger] parse_line(a[i])) is Ok by {
            assert((a + b)[i] == a[i]);
        }
        assert forall|i: int| 0 <= i < b.len() implies (#[trigger] parse_line(b[i])) is Ok by {
            assert((a + b)[a.len() + i] == b[i]);
        }
    }
}

/// The observations of a run of chunks are those of its first part, then of its second.
pub proof fn lemma_chunk_observations_split(
    file: Seq<u8>,
    plan: ChunkPlan,
    from: int,
    mid: int,
    to: int,
)
    requires
        from <= mid <= to,
    ensures
        chunk_observations(file, plan, from, to) == chunk_observations(file, plan, from, mid)
            + chunk_observations(file, plan, mid, to),
    decreases to - mid,
{
    let first = chunk_observations(file, plan, from, mid);
    if mid == to {
        assert(first + Seq::<Observation>::empty() == first);
    } else {
        lemma_chunk_observations_split(file, plan, from, mid, to - 1);
        let last = observations(chunk_lines(file, plan, to - 1));
        let middle = chunk_observations(file, plan, mid, to - 1);
        assert((first + middle) + last == first + (middle + last));
    }
}

/// Where the first `count` chunks are taken in, their lines are records, and their
/// observations are those of their lines.
pub proof fn lemma_chunk_observations(file: Seq<u8>, plan: ChunkPlan, count: nat)
    requires
        forall|j: int| 0 <= j < count ==> chunk_accepted(file, plan, j),
    ensures
        all_parse(lines_of_chunks(file, plan.chunk_size(), plan.excess(), count)),
        chunk_observations(file, plan, 0, count as int) == observations(
            lines_of_chunks(file, plan.chunk_size(), plan.excess(), count),
        ),
    decreases count,
{
    if count == 0 {
        assert(observations(Seq::<Seq<u8>>::empty()) =~= Seq::<Observation>::empty());
    } else {
        let before = (count - 1) as nat;
        lemma_chunk_observations(file, plan, before);
        assert(chunk_accepted(file, plan, before as int));
        lemma_observations_concat(
            lines_of_chunks(file, plan.chunk_size(), plan.excess(), before),
            chunk_lines(file, plan, before as int),
        );
    }
}

/// Where the first `count` chunks are taken in, they can be aligned.
pub proof fn lemma_accepted_chunks_aligned(file: Seq<u8>, plan: ChunkPlan, count: nat)
    requires
        forall|j: int| 0 <= j < count ==> chunk_accepted(file, plan, j),
    ensures
        chunks_aligned(file, plan.chunk_size(), plan.excess(), count),
{
    assert forall|k: int| 0 <= k < count implies #[trigger] nth_chunk_aligned(
        file,
        plan.chunk_size(),
        plan.excess(),
        k,
    ) by {
        assert(chunk_accepted(file, plan, k));
    }
}

/// Chunks that are taken in hold no more observations than the file has bytes.
pub proof fn lemma_chunk_observations_len(file: Seq<u8>, plan: ChunkPlan, from: int, to: nat)
    requires
        plan.valid(),
        0 <= from <= to,
        to == 0 || (to - 1) * plan.chunk_size() <= file.len(),
        forall|j: int| 0 <= j < to ==> chunk_accepted(file, plan, j),
    ensures
        chunk_observations(file, plan, from, to as int).len() <= file.len(),
{
    let c = plan.chunk_size();
    let lines = lines_of_chunks(file, c, plan.excess(), to);
    let cut = line_cut(file, to * c);
    lemma_chunk_observations(file, plan, to);
    lemma_accepted_chunks_aligned(file, plan, to);
    lemma_chunks_hold_prefix(file, c, plan.excess(), to);
    lemma_line_cut(file, to * c, to * c);
    lemma_record_lines_len(file.subrange(0, cut));
    lemma_chunk_observations_split(file, plan, 0, from, to as int);
    assert(lines.len() <= cut);
    assert(chunk_observations(file, plan, 0, to as int).len() == lines.len());
    assert(chunk_observations(file, plan, 0, to as int).len() == chunk_observations(
        file,
        plan,
        0,
        from,
    ).len() + chunk_observations(file, plan, from, to as int).len());
}

/// Tables of observations that are no more than a `u64` counts can be merged.
pub proof fn lemma_counts_fit(a: Seq<Observation>, b: Seq<Observation>)
    requires
        a.len() + b.len() <= u64::MAX,
    ensures
        counts_fit(aggregate(a), aggregate(b)),
        counts_bounded(aggregate(a + b)),
{
    assert forall|key: Seq<u8>| aggregate(a).contains_key(key) && aggregate(b).contains_key(
        key,
    ) implies (#[trigger] aggregate(a)[key]).count + (#[trigger] aggregate(b)[key]).count
        <= u64::MAX by {
        lemma_values_for_len(a, key);
        lemma_values_for_len(b, key);
    }
    assert forall|key: Seq<u8>| #[trigger]
        aggregate(a + b).contains_key(key) implies aggregate(a + b)[key].count <= u64::MAX by {
        lemma_values_for_len(a + b, key);
    }
}

/// Whether every run of `excess` bytes that the file goes on behind holds a terminator: no
/// line, with its terminator, is longer than the margin, but for what ends the file.
pub open spec fn lines_within(file: Seq<u8>, excess: int) -> bool {
    forall|p: int|
        0 <= p && p + excess < file.len() ==> #[trigger] find_from(file, TERMINATOR, p) < p
            + excess
}

/// In a file whose lines fit the margin, every chunk can be aligned.
pub proof fn lemma_short_lines_aligned(file: Seq<u8>, plan: ChunkPlan, k: int)
    requires
        plan.valid(),
        lines_within(file, plan.excess()),
        0 <= k,
        k * plan.chunk_size() <= file.len(),
    ensures
        chunk_aligned(file, k * plan.chunk_size(), plan.chunk_size(), plan.excess()),
{
    let c = plan.chunk_size();
    let offset = k * c;
    let window = window_at(file, offset, c, plan.excess());
    if !reaches_end(file, offset, c, plan.excess()) {
        let t = find_from(file, TERMINATOR, offset + c);
        lemma_find_from(file, TERMINATOR, offset + c);
        assert(window[t - offset] == file[t]);
        lemma_find_from(window, TERMINATOR, c);
    }
}

/// In a file whose lines fit the margin and are all records, every chunk is taken in.
pub proof fn lemma_well_formed_file_accepted(file: Seq<u8>, plan: ChunkPlan, k: int)
    requires
        plan.valid(),
        lines_within(file, plan.excess()),
        all_parse(record_lines(file)),
        0 <= k,
        k * plan.chunk_size() <= file.len(),
    ensures
        chunk_accepted(file, plan, k),
{
    let c = plan.chunk_size();
    let e = plan.excess();
    let count = (k + 1) as nat;
    lemma_short_lines_aligned(file, plan, k);
    assert forall|j: int| 0 <= j < count implies #[trigger] nth_chunk_aligned(file, c, e, j) by {
        assert(j * c <= k * c) by (nonlinear_arith)
            requires
                0 <= j <= k,
                c >= 1,
        ;
        lemma_short_lines_aligned(file, plan, j);
    }
    lemma_chunks_hold_prefix(file, c, e, count);
    let cut = line_cut(file, count * c);
    lemma_line_cut(file, count * c, count * c);
    let a = file.subrange(0, cut);
    let b = file.skip(cut);
    assert(a + b == file);
    lemma_record_lines_concat(a, b);
    lemma_observations_concat(record_lines(a), record_lines(b));
    lemma_observations_concat(lines_of_chunks(file, c, e, k as nat), chunk_lines(file, plan, k));
}

/// The bytes read for the chunk of index `k` are its window, and the lines of their range
/// of whole lines are the lines that the chunk owns.
proof fn lemma_window(file: Seq<u8>, plan: ChunkPlan, k: int, window: Seq<u8>, len: int)
    requires
        plan.valid(),
        0 <= k * plan.chunk_size() < file.len(),
        len == if file.len() - k * plan.chunk_size() < plan.chunk_size() + plan.excess() {
            file.len() - k * plan.chunk_size()
        } else {
            plan.chunk_size() + plan.excess()
        },
        window == file.subrange(k * plan.chunk_size(), k * plan.chunk_size() + len),
    ensures
        window == window_at(file, k * plan.chunk_size(), plan.chunk_size(), plan.excess()),
        window_lines(window, k * plan.chunk_size(), plan.chunk_size()) == chunk_lines(
            file,
            plan,
            k,
        ),
{
}

/// Taking in one more chunk gives the table of the observations up to and with that chunk,
/// and no count overflows on the way.
proof fn lemma_absorbed(file: Seq<u8>, plan: ChunkPlan, from: int, k: int, before: Table)
    requires
        plan.valid(),
        file.len() <= u64::MAX,
        0 <= from <= k,
        k * plan.chunk_size() <= file.len(),
        forall|j: int| 0 <= j <= k ==> chunk_accepted(file, plan, j),
        before == aggregate(chunk_observations(file, plan, from, k)),
    ensures
        merge_tables(before, aggregate(observations(chunk_lines(file, plan, k)))) == aggregate(
            chunk_observations(file, plan, from, k + 1),
        ),
        counts_fit(before, aggregate(observations(chunk_lines(file, plan, k)))),
{
    let earlier = chunk_observations(file, plan, from, k);
    let here = observations(chunk_lines(file, plan, k));
    lemma_aggregate_concat(earlier, here);
    lemma_chunk_observations_len(file, plan, from, (k + 1) as nat);
    lemma_counts_fit(earlier, here);
}

/// Aggregates a file that is held in memory as `data`.
///
/// The file is cut into chunks as `plan` says, and the chunks are handed out to workers, one
/// worker after the other; each worker's table is kept, and the tables are merged at the end.
/// The scan stops at the first chunk that is refused.
pub fn aggregate_bytes(data: &[u8], plan: &ChunkPlan) -> (r: Result<AggregationTable, ScanError>)
    ensures
        r is Ok <==> forall|k: int|
            0 <= k && k * plan.chunk_size() < data@.len() ==> chunk_accepted(data@, *plan, k),
        r matches Ok(t) ==> all_parse(record_lines(data@)) && t@ == aggregate(
            observations(record_lines(data@)),
        ),
        r matches Err(e) ==> exists|k: int|
            0 <= k && k * plan.chunk_size() < data@.len() && #[trigger] chunk_refused(
                data@,
                *plan,
                k,
                e,
            ) && forall|j: int| 0 <= j < k ==> chunk_accepted(data@, *plan, j),
{
    let n: usize = data.len();
    let file_len: u64 = n as u64;
    let offsets = worker_offsets(plan, file_len);
    proof {
        use_type_invariant(plan);
    }
    let ghost file = data@;
    let ghost c = plan.chunk_size();
    let ghost g = plan.group();
    let mut tables: Vec<AggregationTable> = Vec::new();
    let mut w: usize = 0;
    let ghost mut k: int = 0;
    proof {
        assert(0 * g == 0);
        assert(0 * c == 0);
        assert(table_views(tables@) =~= Seq::<Table>::empty());
        assert(aggregate(Seq::<Observation>::empty()) =~= empty_table());
    }
    while w < offsets.len()
        invariant
            plan.valid(),
            file == data@,
            c == plan.chunk_size(),
            g == plan.group(),
            file_len == file.len(),
            n == file.len(),
            forall|i: int| 0 <= i < offsets@.len() ==> #[trigger] offsets@[i] == i * plan.stride(),
            offsets@.len() * plan.stride() >= file_len,
            offsets@.len() > 0 ==> (offsets@.len() - 1) * plan.stride() < file_len,
            w <= offsets@.len(),
            0 <= k,
            k == 0 || (k - 1) * c < file.len(),
            forall|j: int| 0 <= j < k ==> chunk_accepted(file, *plan, j),
            merge_all_tables(table_views(tables@)) == aggregate(
                chunk_observations(file, *plan, 0, k),
            ),
            w < offsets@.len() ==> k == w * g,
            w == offsets@.len() ==> k * c >= file.len(),
        decreases offsets@.len() - w,
    {
        let ghost from = k;
        let base: u64 = offsets[w];
        proof {
            assert(w * plan.stride() == (w * g) * c) by (nonlinear_arith)
                requires
                    plan.stride() == c * g,
            ;
            assert(w * plan.stride() <= (offsets@.len() - 1) * plan.stride()) by (nonlinear_arith)
                requires
                    w <= offsets@.len() - 1,
                    plan.stride() >= 0,
            ;
            assert(0 * c == 0);
            assert(aggregate(Seq::<Observation>::empty()) =~= empty_table());
        }
        let mut worker = Worker::new(*plan, base, file_len);
        let mut read = worker.next_read();
        while read.is_some()
            invariant
                plan.valid(),
                file == data@,
                c == plan.chunk_size(),
                g == plan.group(),
                file_len == file.len(),
                n == file.len(),
                worker.plan() == *plan,
                worker.base() == from * c,
                worker.file_len() == file_len,
                0 <= from <= k,
                worker.chunks_done() == k - from,
                worker.chunks_done() <= g,
                read is Some <==> worker.read_due(),
                read matches Some(next) ==> next.0 == worker.next_offset() && next.1
                    == worker.next_len(),
                k == 0 || (k - 1) * c < file.len(),
                forall|j: int| 0 <= j < k ==> chunk_accepted(file, *plan, j),
                worker.table() == aggregate(chunk_observations(file, *plan, from, k)),
            decreases g - worker.chunks_done(),
        {
            let (offset, len) = read.unwrap();
            proof {
                assert(from * c + (k - from) * c == k * c) by (nonlinear_arith);
                assert(offset == k * c);
            }
            let at: usize = offset as usize;
            let window = slice_subrange(data, at, at + len);
            proof {
                lemma_window(file, *plan, k, window@, len as int);
            }
            worker = match worker.absorb(window) {
                Ok(next) => {
                    proof {
                        assert(chunk_accepted(file, *plan, k));
                        lemma_absorbed(file, *plan, from, k, worker.table());
                    }
                    next
                },
                Err(e) => {
                    proof {
                        if chunk_accepted(file, *plan, k) {
                            lemma_absorbed(file, *plan, from, k, worker.table());
                        }
                        assert(chunk_refused(file, *plan, k, e));
                    }
                    return Err(e);
                },
            };
            proof {
                k = k + 1;
            }
            read = worker.next_read();
        }
        proof {
            lemma_chunk_observations_split(file, *plan, 0, from, k);
            lemma_aggregate_concat(
                chunk_observations(file, *plan, 0, from),
                chunk_observations(file, *plan, from, k),
            );
            assert(from * c + (k - from) * c == k * c) by (nonlinear_arith);
            assert((w + 1) * plan.stride() == (from + g) * c) by (nonlinear_arith)
                requires
                    plan.stride() == c * g,
                    from == w * g,
            ;
            assert((w + 1) * g == from + g) by (nonlinear_arith)
                requires
                    from == w * g,
            ;
            if w + 1 < offsets@.len() {
                assert((w + 1) * plan.stride() <= (offsets@.len() - 1) * plan.stride())
                    by (nonlinear_arith)
                    requires
                        w + 1 <= offsets@.len() - 1,
                        plan.stride() >= 0,
                ;
                if k - from < g {
                    assert(k * c < (from + g) * c) by (nonlinear_arith)
                        requires
                            k < from + g,
                            c >= 1,
                    ;
                }
            }
        }
        let ghost before = tables@;
        tables.push(worker.finish());
        proof {
            assert(table_views(tables@).drop_last() == table_views(before));
        }
        w += 1;
    }
    proof {
        lemma_chunk_observations(file, *plan, k as nat);
        lemma_accepted_chunks_aligned(file, *plan, k as nat);
        lemma_chunks_hold_every_line_once(file, c, plan.excess(), k as nat);
        lemma_chunk_observations_len(file, *plan, 0, k as nat);
        lemma_counts_fit(chunk_observations(file, *plan, 0, k), Seq::empty());
        assert(chunk_observations(file, *plan, 0, k) + Seq::<Observation>::empty()
            == chunk_observations(file, *plan, 0, k));
        assert forall|j: int| 0 <= j && j * c < file.len() implies chunk_accepted(
            file,
            *plan,
            j,
        ) by {
            if j >= k {
                assert(j * c >= k * c) by (nonlinear_arith)
                    requires
                        j >= k,
                        c >= 1,
                ;
            }
        }
    }
    merge_all(tables)
}

} // verus!
