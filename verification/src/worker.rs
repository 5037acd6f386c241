//! The work of one worker: a run of consecutive chunks, read one by one and folded into
//! one table.
//!
//! The worker does no reading itself. It says which bytes it needs next, takes them as a
//! window, and says what it has found when no more are due.

use vstd::prelude::*;
use vstd::slice::slice_subrange;
use crate::aggregate::{aggregate, merge_tables, Table};
use crate::chunk::{align_chunk, terminator_in_margin, window_end, window_start};
use crate::error::ScanError;
use crate::lines::{all_parse, first_failure, observations, process_chunk, record_lines};
use crate::table::{counts_fit, empty_table, AggregationTable};

verus! {

/// Nominal length of a chunk.
pub const CHUNK_SIZE: usize = 0x10_0000;

/// Bytes read beyond the nominal length, in which the line that crosses it must end.
pub const CHUNK_EXCESS: usize = 64;

/// Number of chunks that one worker takes.
pub const DISPATCH_LOOPS: usize = 128;

/// How a file is cut up: the nominal length of a chunk, the margin read beyond it, and the
/// number of consecutive chunks that one worker takes.
#[derive(Clone, Copy, Debug)]
pub struct ChunkPlan {
    chunk_size: usize,
    excess: usize,
    group: usize,
}

impl ChunkPlan {
    /// Nominal length of a chunk.
    pub closed spec fn chunk_size(self) -> int {
        self.chunk_size as int
    }

    /// Length of the margin.
    pub closed spec fn excess(self) -> int {
        self.excess as int
    }

    /// Number of chunks per worker.
    pub closed spec fn group(self) -> int {
        self.group as int
    }

    /// Distance between the offsets at which consecutive workers start.
    pub open spec fn stride(self) -> int {
        self.chunk_size() * self.group()
    }

    /// What holds of every plan: chunks and groups are not empty, a window's length fits a
    /// `usize`, and a stride fits a `u64`.
    pub open spec fn valid(self) -> bool {
        &&& self.chunk_size() >= 1
        &&& self.group() >= 1
        &&& self.excess() >= 0
        &&& self.chunk_size() + self.excess() <= usize::MAX
        &&& self.stride() <= u64::MAX
    }

    #[verifier::type_invariant]
    pub(crate) open spec fn well_formed(self) -> bool {
        self.valid()
    }

    /// A plan with the given lengths, where they make a valid plan.
    pub fn new(chunk_size: usize, excess: usize, group: usize) -> (r: Option<ChunkPlan>)
        ensures
            r is Some <==> chunk_size >= 1 && group >= 1 && chunk_size + excess <= usize::MAX
                && chunk_size * group <= u64::MAX,
            r matches Some(plan) ==> plan.valid() && plan.chunk_size() == chunk_size
                && plan.excess() == excess && plan.group() == group,
    {
        if chunk_size == 0 || group == 0 || excess > usize::MAX - chunk_size {
            return None;
        }
        match (chunk_size as u64).checked_mul(group as u64) {
            Some(_) => Some(ChunkPlan { chunk_size, excess, group }),
            None => None,
        }
    }

    /// The plan of `CHUNK_SIZE`, `CHUNK_EXCESS` and `DISPATCH_LOOPS`.
    pub fn standard() -> (plan: ChunkPlan)
        ensures
            plan.valid(),
            plan.chunk_size() == CHUNK_SIZE,
            plan.excess() == CHUNK_EXCESS,
            plan.group() == DISPATCH_LOOPS,
    {
        assert(0x10_0000 * 128 == 0x800_0000);
        ChunkPlan { chunk_size: CHUNK_SIZE, excess: CHUNK_EXCESS, group: DISPATCH_LOOPS }
    }

    /// Nominal length of a chunk.
    pub fn core_len(&self) -> (n: usize)
        ensures
            n == self.chunk_size(),
            self.valid(),
    {
        proof {
            use_type_invariant(self);
        }
        self.chunk_size
    }

    /// Length of a window that does not reach the end of the file.
    pub fn window_len(&self) -> (n: usize)
        ensures
            n == self.chunk_size() + self.excess(),
    {
        proof {
            use_type_invariant(self);
        }
        self.chunk_size + self.excess
    }

    /// Distance between the offsets at which consecutive workers start.
    pub fn worker_stride(&self) -> (n: u64)
        ensures
            n == self.stride(),
            n >= 1,
    {
        proof {
            use_type_invariant(self);
            assert(self.chunk_size * self.group >= 1) by (nonlinear_arith)
                requires
                    self.chunk_size >= 1,
                    self.group >= 1,
            ;
        }
        (self.chunk_size as u64) * (self.group as u64)
    }
}

/// The lines of a window: those that its range of whole lines holds.
pub open spec fn window_lines(window: Seq<u8>, offset: int, core_len: int) -> Seq<Seq<u8>> {
    record_lines(window.subrange(window_start(window, offset), window_end(window, core_len)))
}

/// One worker's progress through its chunks.
pub struct Worker {
    plan: ChunkPlan,
    base: u64,
    file_len: u64,
    done: usize,
    table: AggregationTable,
}

impl Worker {
    /// The plan that the worker follows.
    pub closed spec fn plan(self) -> ChunkPlan {
        self.plan
    }

    /// The offset of the worker's first chunk.
    pub closed spec fn base(self) -> int {
        self.base as int
    }

    /// The length of the file.
    pub closed spec fn file_len(self) -> int {
        self.file_len as int
    }

    /// The number of chunks taken in.
    pub closed spec fn chunks_done(self) -> int {
        self.done as int
    }

    /// What the chunks taken in hold.
    pub closed spec fn table(self) -> Table {
        self.table@
    }

    /// The offset of the chunk that comes next.
    pub open spec fn next_offset(self) -> int {
        self.base() + self.chunks_done() * self.plan().chunk_size()
    }

    /// Whether another chunk is due: the worker has not had its number of chunks, and the
    /// next one starts inside the file.
    pub open spec fn read_due(self) -> bool {
        self.chunks_done() < self.plan().group() && self.next_offset() < self.file_len()
    }

    /// The length of the window of the chunk that comes next.
    pub open spec fn next_len(self) -> int {
        if self.file_len() - self.next_offset() < self.plan().chunk_size() + self.plan().excess() {
            self.file_len() - self.next_offset()
        } else {
            self.plan().chunk_size() + self.plan().excess()
        }
    }

    /// Whether the window of the chunk that comes next reaches the end of the file.
    pub open spec fn next_at_end(self) -> bool {
        self.next_offset() + self.plan().chunk_size() + self.plan().excess() >= self.file_len()
    }

    /// Whether `window` is taken in. It must be the window that is due, by its length. It
    /// must hold a terminator in its margin or reach the end of the file. Its lines must all
    /// be records, and no key may get more observations than a `u64` counts.
    pub open spec fn accepts(self, window: Seq<u8>) -> bool {
        let lines = window_lines(window, self.next_offset(), self.plan().chunk_size());
        &&& self.read_due()
        &&& window.len() == self.next_len()
        &&& self.next_at_end() || terminator_in_margin(window, self.plan().chunk_size())
        &&& all_parse(lines)
        &&& counts_fit(self.table(), aggregate(observations(lines)))
    }

    /// Whether `e` is the reason for which `window` is refused: the first, in the order of
    /// `accepts`, that holds.
    pub open spec fn refuses(self, window: Seq<u8>, e: ScanError) -> bool {
        let lines = window_lines(window, self.next_offset(), self.plan().chunk_size());
        if !self.read_due() || window.len() != self.next_len() {
            e == ScanError::WindowLength
        } else if !self.next_at_end() && !terminator_in_margin(window, self.plan().chunk_size()) {
            e == ScanError::LineTooLong
        } else if !all_parse(lines) {
            first_failure(lines, e)
        } else {
            e == ScanError::CountOverflow && !counts_fit(
                self.table(),
                aggregate(observations(lines)),
            )
        }
    }

    #[verifier::type_invariant]
    spec fn well_formed(self) -> bool {
        self.done <= self.plan.group
    }

    /// A worker for the chunks from `base` on, in a file of `file_len` bytes.
    pub fn new(plan: ChunkPlan, base: u64, file_len: u64) -> (w: Worker)
        ensures
            w.plan() == plan,
            w.base() == base,
            w.file_len() == file_len,
            w.chunks_done() == 0,
            w.table() == empty_table(),
    {
        Worker { plan, base, file_len, done: 0, table: AggregationTable::new() }
    }

    /// Where to read next, and how many bytes; `None` when the worker is done.
    pub fn next_read(&self) -> (r: Option<(u64, usize)>)
        ensures
            r is Some <==> self.read_due(),
            r matches Some(read) ==> read.0 == self.next_offset() && read.1 == self.next_len(),
    {
        proof {
            use_type_invariant(self);
            use_type_invariant(&self.plan);
        }
        if self.done >= self.plan.group {
            return None;
        }
        assert(self.done * self.plan.chunk_size <= self.plan.chunk_size * self.plan.group)
            by (nonlinear_arith)
            requires
                self.done <= self.plan.group,
        ;
        let step: u64 = (self.done as u64) * (self.plan.chunk_size as u64);
        let offset: u64 = match self.base.checked_add(step) {
            Some(at) => at,
            None => {
                return None;
            },
        };
        if offset >= self.file_len {
            return None;
        }
        let remaining: u64 = self.file_len - offset;
        let full: usize = self.plan.chunk_size + self.plan.excess;
        let len: usize = if remaining < full as u64 {
            remaining as usize
        } else {
            full
        };
        Some((offset, len))
    }

    /// Takes in the window of the chunk that is due: aligns it, scans its lines and merges
    /// what they hold into the table.
    pub fn absorb(self, window: &[u8]) -> (r: Result<Worker, ScanError>)
        ensures
            r is Ok <==> self.accepts(window@),
            r matches Ok(w) ==> w.plan() == self.plan() && w.base() == self.base() && w.file_len()
                == self.file_len() && w.chunks_done() == self.chunks_done() + 1 && w.table()
                == merge_tables(
                self.table(),
                aggregate(
                    observations(
                        window_lines(window@, self.next_offset(), self.plan().chunk_size()),
                    ),
                ),
            ),
            r matches Err(e) ==> self.refuses(window@, e),
    {
        proof {
            use_type_invariant(&self);
            use_type_invariant(&self.plan);
        }
        let (offset, len) = match self.next_read() {
            Some(read) => read,
            None => {
                return Err(ScanError::WindowLength);
            },
        };
        if window.len() != len {
            return Err(ScanError::WindowLength);
        }
        let full: usize = self.plan.chunk_size + self.plan.excess;
        let at_end: bool = self.file_len - offset <= full as u64;
        let (start, end) = match align_chunk(window, offset, self.plan.chunk_size, at_end) {
            Ok(range) => range,
            Err(e) => {
                return Err(e);
            },
        };
        let found = match process_chunk(slice_subrange(window, start, end)) {
            Ok(t) => t,
            Err(e) => {
                return Err(e);
            },
        };
        let Worker { plan, base, file_len, done, table } = self;
        let merged = match table.merge(found) {
            Ok(t) => t,
            Err(e) => {
                return Err(e);
            },
        };
        Ok(Worker { plan, base, file_len, done: done + 1, table: merged })
    }

    /// What the worker has found.
    pub fn finish(self) -> (t: AggregationTable)
        ensures
            t@ == self.table(),
    {
        self.table
    }
}

/// The offsets at which the workers for a file of `file_len` bytes start: the multiples of
/// the plan's stride that lie inside the file.
pub fn worker_offsets(plan: &ChunkPlan, file_len: u64) -> (offsets: Vec<u64>)
    ensures
        forall|w: int| 0 <= w < offsets@.len() ==> #[trigger] offsets@[w] == w * plan.stride(),
        offsets@.len() * plan.stride() >= file_len,
        offsets@.len() > 0 ==> (offsets@.len() - 1) * plan.stride() < file_len,
{
    let stride: u64 = plan.worker_stride();
    let mut offsets: Vec<u64> = Vec::new();
    let mut offset: u64 = 0;
    let mut more: bool = file_len > 0;
    assert(0 * plan.stride() == 0);
    while more
        invariant
            stride == plan.stride(),
            stride >= 1,
            forall|w: int| 0 <= w < offsets@.len() ==> #[trigger] offsets@[w] == w * plan.stride(),
            more ==> offset < file_len && offset == offsets@.len() * plan.stride(),
            !more ==> offsets@.len() * plan.stride() >= file_len,
            !more && offsets@.len() > 0 ==> (offsets@.len() - 1) * plan.stride() < file_len,
        decreases file_len - offset + (if more { 1int } else { 0int }),
    {
        let ghost n = offsets@.len() as int;
        offsets.push(offset);
        assert((n + 1) * plan.stride() == n * plan.stride() + plan.stride()) by (nonlinear_arith);
        if file_len - offset > stride {
            offset = offset + stride;
        } else {
            more = false;
        }
    }
    offsets
}

} // verus!
