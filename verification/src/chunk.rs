//! How the rows of a flush are split into segments.

use vstd::prelude::*;

use crate::recover::{block_count, blocks_for};

verus! {

/// What a flush is tuned by.
#[derive(Clone, Copy, Debug, PartialEq, Eq, Structural)]
pub struct Tuning {
    /// How many rows a segment takes at most.
    pub flush_chunk_rows: usize,
    /// How many segments are built at a time.
    pub flush_threads: usize,
}

impl Default for Tuning {
    fn default() -> (tuning: Self)
        ensures
            tuning.flush_chunk_rows == 65_536,
            tuning.flush_threads == 1,
    {
        Tuning { flush_chunk_rows: 65_536, flush_threads: 1 }
    }
}

/// How much memory the builders of a flush may use together, in bytes.
pub const FLUSH_BUILD_MEMORY_BUDGET: u64 = 6_442_450_944;

/// The larger of two numbers.
pub open spec fn at_least(a: int, b: int) -> int {
    if a >= b {
        a
    } else {
        b
    }
}

/// The smaller of two numbers.
pub open spec fn at_most(a: int, b: int) -> int {
    if a <= b {
        a
    } else {
        b
    }
}

/// How many rows a segment takes at most.
pub fn flush_chunk_rows(tuning: &Tuning) -> (rows: usize)
    ensures
        rows == at_least(tuning.flush_chunk_rows as int, 1),
{
    if tuning.flush_chunk_rows < 1 {
        1
    } else {
        tuning.flush_chunk_rows
    }
}

/// How many segments are built at a time.
pub fn flush_parallelism(tuning: &Tuning) -> (threads: usize)
    ensures
        threads == at_least(tuning.flush_threads as int, 1),
{
    if tuning.flush_threads < 1 {
        1
    } else {
        tuning.flush_threads
    }
}

/// A number that stops at the largest of 64 bits.
pub open spec fn capped(n: int) -> int {
    at_most(n, u64::MAX as int)
}

/// What the builder of one segment needs, in bytes: its vectors and a fixed part for each row,
/// twice.
pub open spec fn block_bytes(dimension: usize, chunk_rows: usize) -> int {
    at_least(capped(capped(chunk_rows * capped(capped(dimension * 4) + 256)) * 2), 1)
}

/// How many segments are built at a time: no more than asked for, than there are, and than the
/// memory allows; at least one.
pub open spec fn build_threads(
    dimension: usize,
    chunk_rows: usize,
    parallelism: usize,
    chunk_count: usize,
) -> int {
    at_least(
        at_most(
            at_most(parallelism as int, chunk_count as int),
            at_least(FLUSH_BUILD_MEMORY_BUDGET as int / block_bytes(dimension, chunk_rows), 1),
        ),
        1,
    )
}

/// No fewer builders are used where more are asked for, where there are more segments, where vectors
/// have fewer dimensions, and where segments take fewer rows.
pub proof fn build_threads_are_monotone(
    dimension: usize,
    chunk_rows: usize,
    parallelism: usize,
    chunk_count: usize,
    fewer_dimensions: usize,
    fewer_rows: usize,
    more_parallelism: usize,
    more_chunks: usize,
)
    requires
        fewer_dimensions <= dimension,
        fewer_rows <= chunk_rows,
        parallelism <= more_parallelism,
        chunk_count <= more_chunks,
    ensures
        build_threads(dimension, chunk_rows, parallelism, chunk_count) <= build_threads(
            fewer_dimensions,
            fewer_rows,
            more_parallelism,
            more_chunks,
        ),
{
    let large = capped(capped(dimension * 4) + 256);
    let small = capped(capped(fewer_dimensions * 4) + 256);
    assert(fewer_rows * small <= chunk_rows * large) by (nonlinear_arith)
        requires
            0 <= fewer_rows <= chunk_rows,
            0 <= small <= large,
    ;
    let budget = FLUSH_BUILD_MEMORY_BUDGET as int;
    let block = block_bytes(dimension, chunk_rows);
    let smaller = block_bytes(fewer_dimensions, fewer_rows);
    assert(1 <= smaller <= block);
    assert(budget / block <= budget / smaller) by (nonlinear_arith)
        requires
            0 <= budget,
            1 <= smaller <= block,
    ;
}

fn capped_product(a: u64, b: u64) -> (product: u64)
    ensures
        product == capped(a * b),
{
    match a.checked_mul(b) {
        Some(product) => product,
        None => u64::MAX,
    }
}

/// Counts the segments that are built at a time.
pub fn flush_build_threads(
    dimension: usize,
    chunk_rows: usize,
    parallelism: usize,
    chunk_count: usize,
) -> (threads: usize)
    ensures
        threads == build_threads(dimension, chunk_rows, parallelism, chunk_count),
{
    let row: u64 = capped_product(dimension as u64, 4).saturating_add(256);
    let block: u64 = capped_product(capped_product(chunk_rows as u64, row), 2);
    let per_block: u64 = if block < 1 {
        1
    } else {
        block
    };
    assert(per_block == block_bytes(dimension, chunk_rows));
    let fitting: u64 = FLUSH_BUILD_MEMORY_BUDGET / per_block;
    let by_memory: u64 = if fitting < 1 {
        1
    } else {
        fitting
    };
    let wanted: usize = if parallelism <= chunk_count {
        parallelism
    } else {
        chunk_count
    };
    let threads: usize = if wanted as u64 <= by_memory {
        wanted
    } else {
        by_memory as usize
    };
    if threads < 1 {
        1
    } else {
        threads
    }
}

/// Where a chunk of the given number begins, at most at the end.
pub open spec fn chunk_start(total: nat, chunk_rows: nat, number: int) -> int {
    at_most(number * chunk_rows, total as int)
}

/// Whether `chunks` are the slots cut into runs of `chunk_rows`, the last of which may be shorter.
/// No slots make one empty chunk.
pub open spec fn splits(
    slots: Seq<usize>,
    chunk_rows: nat,
    chunks: Seq<Vec<usize>>,
) -> bool {
    if slots.len() == 0 {
        chunks.len() == 1 && chunks[0]@ == Seq::<usize>::empty()
    } else {
        &&& chunks.len() == blocks_for(slots.len(), chunk_rows)
        &&& forall|i: int|
            0 <= i < chunks.len() ==> (#[trigger] chunks[i])@ == slots.subrange(
                chunk_start(slots.len(), chunk_rows, i),
                chunk_start(slots.len(), chunk_rows, i + 1),
            )
    }
}

/// Cuts the slots of a flush into chunks of the tuned size.
pub fn split_slot_chunks(slots: &Vec<usize>, tuning: &Tuning) -> (chunks: Vec<Vec<usize>>)
    ensures
        splits(slots@, at_least(tuning.flush_chunk_rows as int, 1) as nat, chunks@),
{
    split_slot_chunks_with(slots, flush_chunk_rows(tuning))
}

/// A copy of a part of the slots.
fn copied_range(slots: &Vec<usize>, from: usize, to: usize) -> (part: Vec<usize>)
    requires
        from <= to <= slots@.len(),
    ensures
        part@ == slots@.subrange(from as int, to as int),
{
    let mut part: Vec<usize> = Vec::new();
    let mut i: usize = from;
    while i < to
        invariant
            from <= i <= to <= slots@.len(),
            part@ == slots@.subrange(from as int, i as int),
        decreases to - i,
    {
        part.push(slots[i]);
        assert(slots@.subrange(from as int, i + 1) =~= slots@.subrange(from as int, i as int).push(
            slots@[i as int],
        ));
        i = i + 1;
    }
    part
}

/// Cuts the slots of a flush into chunks of `chunk_rows`; a size of zero counts as one.
pub fn split_slot_chunks_with(slots: &Vec<usize>, chunk_rows: usize) -> (chunks: Vec<Vec<usize>>)
    ensures
        splits(slots@, at_least(chunk_rows as int, 1) as nat, chunks@),
{
    let mut chunks: Vec<Vec<usize>> = Vec::new();
    let total: usize = slots.len();
    if total == 0 {
        chunks.push(Vec::new());
        return chunks;
    }
    let size: usize = if chunk_rows < 1 {
        1
    } else {
        chunk_rows
    };
    let count: usize = block_count(total, size);
    let mut start: usize = 0;
    let mut i: usize = 0;
    proof {
        assert(0 * size == 0) by (nonlinear_arith);
    }
    while i < count
        invariant
            i <= count,
            size >= 1,
            total == slots@.len(),
            total > 0,
            count == blocks_for(total as nat, size as nat),
            start == chunk_start(total as nat, size as nat, i as int),
            start <= total,
            i < count ==> start == i * size,
            chunks@.len() == i,
            forall|k: int|
                0 <= k < i ==> (#[trigger] chunks@[k])@ == slots@.subrange(
                    chunk_start(total as nat, size as nat, k),
                    chunk_start(total as nat, size as nat, k + 1),
                ),
        decreases count - i,
    {
        let end: usize = if total - start <= size {
            total
        } else {
            start + size
        };
        proof {
            assert((i + 1) * size == i * size + size) by (nonlinear_arith);
            assert(end == chunk_start(total as nat, size as nat, i + 1));
            if i + 1 < count {
                lemma_before_last(total as nat, size as nat, i as int);
            }
        }
        chunks.push(copied_range(slots, start, end));
        start = end;
        i = i + 1;
    }
    chunks
}

/// A chunk before the last ends before the end.
proof fn lemma_before_last(total: nat, size: nat, i: int)
    requires
        size >= 1,
        total > 0,
        0 <= i,
        i + 1 < blocks_for(total, size),
    ensures
        (i + 1) * size <= total,
{
    let whole = total / size;
    assert(i + 1 <= whole);
    assert((i + 1) * size <= whole * size) by (nonlinear_arith)
        requires
            i + 1 <= whole,
            size >= 1,
    ;
    assert(whole * size <= total) by (nonlinear_arith)
        requires
            size >= 1,
            whole == total / size,
    ;
}

/// The last chunk ends at the end.
proof fn lemma_last_chunk(total: nat, size: nat)
    requires
        size >= 1,
    ensures
        blocks_for(total, size) * size >= total,
{
    let whole = total / size;
    assert(total == whole * size + total % size) by (nonlinear_arith)
        requires
            size >= 1,
            whole == total / size,
    ;
    assert(total % size < size) by (nonlinear_arith)
        requires
            size >= 1,
    ;
    assert((whole + 1) * size == whole * size + size) by (nonlinear_arith);
}

/// The first `count` chunks one behind the other.
pub open spec fn joined_chunks(chunks: Seq<Vec<usize>>, count: nat) -> Seq<usize>
    decreases count,
{
    if count == 0 {
        Seq::empty()
    } else {
        joined_chunks(chunks, (count - 1) as nat) + chunks[count - 1]@
    }
}

proof fn lemma_joined_prefix(
    slots: Seq<usize>,
    chunk_rows: nat,
    chunks: Seq<Vec<usize>>,
    count: nat,
)
    requires
        chunk_rows >= 1,
        slots.len() > 0,
        splits(slots, chunk_rows, chunks),
        count <= chunks.len(),
    ensures
        joined_chunks(chunks, count) == slots.take(
            chunk_start(slots.len(), chunk_rows, count as int),
        ),
    decreases count,
{
    if count > 0 {
        let less = (count - 1) as nat;
        lemma_joined_prefix(slots, chunk_rows, chunks, less);
        let from = chunk_start(slots.len(), chunk_rows, less as int);
        let to = chunk_start(slots.len(), chunk_rows, count as int);
        assert(less * chunk_rows <= count * chunk_rows) by (nonlinear_arith)
            requires
                less <= count,
        ;
        assert(less * chunk_rows >= 0) by (nonlinear_arith);
        assert(slots.take(from) + slots.subrange(from, to) =~= slots.take(to));
    } else {
        assert(0 * chunk_rows == 0) by (nonlinear_arith);
        assert(slots.take(0) =~= Seq::empty());
    }
}

/// The chunks hold every slot once, in order, and none holds more rows than asked for.
pub proof fn chunks_cover_slots(slots: Seq<usize>, chunk_rows: nat, chunks: Seq<Vec<usize>>)
    requires
        chunk_rows >= 1,
        splits(slots, chunk_rows, chunks),
    ensures
        joined_chunks(chunks, chunks.len()) == slots,
        forall|i: int| 0 <= i < chunks.len() ==> (#[trigger] chunks[i])@.len() <= chunk_rows,
{
    if slots.len() == 0 {
        reveal_with_fuel(joined_chunks, 2);
        assert(joined_chunks(chunks, 1) =~= slots);
    } else {
        lemma_joined_prefix(slots, chunk_rows, chunks, chunks.len());
        lemma_last_chunk(slots.len(), chunk_rows);
        assert(slots.take(slots.len() as int) =~= slots);
        assert forall|i: int| 0 <= i < chunks.len() implies (#[trigger] chunks[i])@.len()
            <= chunk_rows by {
            assert((i + 1) * chunk_rows == i * chunk_rows + chunk_rows) by (nonlinear_arith);
            assert(i * chunk_rows >= 0) by (nonlinear_arith)
                requires
                    i >= 0,
            ;
        }
    }
}

/// The builders of a flush stay within the memory budget, unless a single one exceeds it.
pub proof fn builders_fit_memory(
    dimension: usize,
    chunk_rows: usize,
    parallelism: usize,
    chunk_count: usize,
)
    ensures
        build_threads(dimension, chunk_rows, parallelism, chunk_count) >= 1,
        build_threads(dimension, chunk_rows, parallelism, chunk_count) == 1 || build_threads(
            dimension,
            chunk_rows,
            parallelism,
            chunk_count,
        ) * block_bytes(dimension, chunk_rows) <= FLUSH_BUILD_MEMORY_BUDGET,
{
    let threads = build_threads(dimension, chunk_rows, parallelism, chunk_count);
    let block = block_bytes(dimension, chunk_rows);
    if threads > 1 {
        let fitting = FLUSH_BUILD_MEMORY_BUDGET as int / block;
        assert(threads <= fitting);
        assert(threads * block <= fitting * block) by (nonlinear_arith)
            requires
                threads <= fitting,
                block >= 1,
        ;
        assert(fitting * block <= FLUSH_BUILD_MEMORY_BUDGET) by (nonlinear_arith)
            requires
                block >= 1,
                fitting == FLUSH_BUILD_MEMORY_BUDGET as int / block,
        ;
    }
}

/// A flush uses as many builders as it may: as many as were asked for and there are segments, where
/// these fit the memory budget together. What a builder takes is twice the rows of its segment,
/// each with four bytes for every dimension and 256 more.
pub proof fn builders_use_the_memory(
    dimension: usize,
    chunk_rows: usize,
    parallelism: usize,
    chunk_count: usize,
    asked: int,
)
    requires
        chunk_rows > 0,
        asked == (if parallelism <= chunk_count {
            parallelism as int
        } else {
            chunk_count as int
        }),
    ensures
        2 * (chunk_rows * (dimension * 4 + 256)) <= u64::MAX ==> block_bytes(dimension, chunk_rows)
            == 2 * (chunk_rows * (dimension * 4 + 256)),
        asked >= 1 && asked * block_bytes(dimension, chunk_rows) <= 6_442_450_944 ==> build_threads(
            dimension,
            chunk_rows,
            parallelism,
            chunk_count,
        ) == asked,
        build_threads(dimension, chunk_rows, parallelism, chunk_count) <= asked || build_threads(
            dimension,
            chunk_rows,
            parallelism,
            chunk_count,
        ) == 1,
{
    let row = dimension * 4 + 256;
    let rows = chunk_rows as int;
    let block = block_bytes(dimension, chunk_rows);
    assert(rows * row >= row) by (nonlinear_arith)
        requires
            rows >= 1,
            row >= 0,
    ;
    if asked >= 1 && asked * block <= 6_442_450_944 {
        assert(6_442_450_944int / block >= asked) by (nonlinear_arith)
            requires
                asked * block <= 6_442_450_944,
                block >= 1,
                asked >= 1,
        ;
    }
}

} // verus!
