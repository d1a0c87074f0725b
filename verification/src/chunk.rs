//! Chunk planning: cutting `[0, total)` into contiguous, disjoint ranges.

use crate::error::ConfigError;
use vstd::arithmetic::div_mod::{
    lemma_div_pos_is_pos, lemma_fundamental_div_mod, lemma_fundamental_div_mod_converse,
    lemma_mod_pos_bound,
};
use vstd::prelude::*;

verus! {

/// A contiguous index range `[offset, offset + length)` assigned to one task.
#[derive(Clone, Copy, Debug, PartialEq, Eq, Structural)]
pub struct Chunk {
    pub offset: usize,
    pub length: usize,
}

impl Chunk {
    /// First index past the chunk.
    pub open spec fn end(self) -> int {
        self.offset + self.length
    }

    /// Whether index `k` lies in the chunk.
    pub open spec fn holds(self, k: int) -> bool {
        self.offset <= k < self.end()
    }
}

/// How many tasks a run over `total` elements with `threads` threads has:
/// one per thread, but never more than one per element.
pub open spec fn task_count(total: int, threads: int) -> int {
    if threads < total {
        threads
    } else {
        total
    }
}

/// The nominal chunk length, `total` divided by the number of tasks and
/// rounded up; zero when there is no task.
pub open spec fn chunk_size(total: int, threads: int) -> int {
    let n = task_count(total, threads);
    if n <= 0 {
        0
    } else {
        (total + n - 1) / n
    }
}

/// Where chunk `i` starts: `i` nominal lengths in, but never past the end of the buffer.
pub open spec fn chunk_offset(total: int, threads: int, i: int) -> int {
    let reach = i * chunk_size(total, threads);
    if reach < total {
        reach
    } else {
        total
    }
}

/// How long chunk `i` is: the nominal length, or what is left of the buffer if that is less.
pub open spec fn chunk_length(total: int, threads: int, i: int) -> int {
    let left = total - chunk_offset(total, threads, i);
    if chunk_size(total, threads) < left {
        chunk_size(total, threads)
    } else {
        left
    }
}

/// The plan for `total` elements and `threads` threads, in spawn order.
pub open spec fn planned(total: usize, threads: usize) -> Seq<Chunk> {
    Seq::new(
        task_count(total as int, threads as int) as nat,
        |i: int|
            Chunk {
                offset: chunk_offset(total as int, threads as int, i) as usize,
                length: chunk_length(total as int, threads as int, i) as usize,
            },
    )
}

/// Chunk `i` of `chunks` starts where the one before it ends, the first one at zero.
pub open spec fn follows_on(chunks: Seq<Chunk>, i: int) -> bool {
    chunks[i].offset == (if i == 0 {
        0
    } else {
        chunks[i - 1].end()
    })
}

/// `chunks` tiles `[0, total)`: the first chunk starts at zero, each next one
/// starts where the one before it ends, and the last one ends at `total`.
pub open spec fn is_partition(chunks: Seq<Chunk>, total: int) -> bool {
    &&& forall|i: int| 0 <= i < chunks.len() ==> #[trigger] follows_on(chunks, i)
    &&& total == (if chunks.len() == 0 {
        0
    } else {
        chunks.last().end()
    })
}

/// Whether some chunk of `chunks` holds index `k`.
pub open spec fn covers(chunks: Seq<Chunk>, k: int) -> bool {
    exists|i: int| 0 <= i < chunks.len() && (#[trigger] chunks[i]).holds(k)
}

/// Plans the chunks for a buffer of `total_length` elements and `num_threads` threads.
///
/// A thread count of zero is refused. Otherwise the plan has one chunk per
/// thread, but never more chunks than elements. Every chunk has the nominal
/// length, `total_length` divided by the number of chunks and rounded up, as
/// long as the buffer lasts; a chunk that would reach beyond the buffer is
/// cut off at its end.
pub fn plan(total_length: usize, num_threads: usize) -> (r: Result<Vec<Chunk>, ConfigError>)
    ensures
        r is Err <==> num_threads == 0,
        r matches Err(e) ==> e == ConfigError::InvalidConfiguration,
        r matches Ok(chunks) ==> chunks@ == planned(total_length, num_threads),
        r matches Ok(chunks) ==> is_partition(chunks@, total_length as int),
{
    if num_threads == 0 {
        return Err(ConfigError::InvalidConfiguration);
    }
    let tasks: usize = if num_threads < total_length {
        num_threads
    } else {
        total_length
    };
    let mut chunks: Vec<Chunk> = Vec::new();
    if tasks == 0 {
        return Ok(chunks);
    }
    proof {
        lemma_round_up(total_length as int, tasks as int);
    }
    let size: usize = if total_length % tasks == 0 {
        total_length / tasks
    } else {
        total_length / tasks + 1
    };
    let mut offset: usize = 0;
    let mut i: usize = 0;
    while i < tasks
        invariant
            i <= tasks,
            tasks == task_count(total_length as int, num_threads as int),
            size == chunk_size(total_length as int, num_threads as int),
            offset == chunk_offset(total_length as int, num_threads as int, i as int),
            offset <= total_length,
            chunks@.len() == i,
            forall|j: int| 0 <= j < i ==> chunks@[j] == planned(total_length, num_threads)[j],
        decreases tasks - i,
    {
        let left: usize = total_length - offset;
        let length: usize = if size < left {
            size
        } else {
            left
        };
        proof {
            lemma_offset_step(total_length as int, num_threads as int, i as int);
        }
        chunks.push(Chunk { offset, length });
        offset = offset + length;
        i = i + 1;
    }
    proof {
        assert(chunks@ =~= planned(total_length, num_threads));
        lemma_plan_is_partition(total_length, num_threads);
    }
    Ok(chunks)
}

/// Whether `chunks` tiles a buffer of `total` elements.
pub fn tiles(chunks: &Vec<Chunk>, total: usize) -> (r: bool)
    ensures
        r == is_partition(chunks@, total as int),
{
    let mut reached: usize = 0;
    let mut i: usize = 0;
    while i < chunks.len()
        invariant
            i <= chunks@.len(),
            reached <= total,
            reached == (if i == 0 {
                0
            } else {
                chunks@[i - 1].end()
            }),
            forall|j: int| 0 <= j < i ==> #[trigger] follows_on(chunks@, j),
        decreases chunks@.len() - i,
    {
        if chunks[i].offset != reached {
            assert(!follows_on(chunks@, i as int));
            return false;
        }
        if chunks[i].length > total - reached {
            proof {
                if is_partition(chunks@, total as int) {
                    lemma_partition_bounded(chunks@, total as int, i as int);
                }
            }
            return false;
        }
        reached = reached + chunks[i].length;
        i = i + 1;
    }
    reached == total
}

/// Rounding a quotient up: one more than the quotient unless the division is
/// exact, and never more than the dividend.
proof fn lemma_round_up(total: int, n: int)
    requires
        0 <= total,
        0 < n,
    ensures
        (total + n - 1) / n == (if total % n == 0 {
            total / n
        } else {
            total / n + 1
        }),
        (total + n - 1) / n <= total,
{
    let q = total / n;
    let r = total % n;
    lemma_fundamental_div_mod(total, n);
    lemma_mod_pos_bound(total, n);
    lemma_div_pos_is_pos(total, n);
    assert(q <= q * n) by (nonlinear_arith)
        requires
            0 <= q,
            1 <= n,
    ;
    if r == 0 {
        lemma_fundamental_div_mod_converse(total + n - 1, n, q, n - 1);
    } else {
        assert((q + 1) * n == q * n + n) by (nonlinear_arith);
        lemma_fundamental_div_mod_converse(total + n - 1, n, q + 1, r - 1);
    }
}

/// The nominal length, taken once per task, is enough for the whole buffer.
proof fn lemma_size_suffices(total: int, threads: int)
    requires
        0 <= total,
        1 <= threads,
    ensures
        0 <= chunk_size(total, threads),
        task_count(total, threads) * chunk_size(total, threads) >= total,
{
    let n = task_count(total, threads);
    let cs = chunk_size(total, threads);
    if n > 0 {
        lemma_fundamental_div_mod(total + n - 1, n);
        lemma_mod_pos_bound(total + n - 1, n);
        lemma_div_pos_is_pos(total + n - 1, n);
    } else {
        assert(n * cs == 0) by (nonlinear_arith)
            requires
                n == 0,
        ;
    }
}

/// Each chunk of a plan starts where the one before it ends.
proof fn lemma_offset_step(total: int, threads: int, i: int)
    requires
        0 <= total,
        1 <= threads,
        0 <= i,
    ensures
        0 <= chunk_offset(total, threads, i) <= total,
        0 <= chunk_length(total, threads, i) <= chunk_size(total, threads),
        chunk_offset(total, threads, i + 1) == chunk_offset(total, threads, i) + chunk_length(
            total,
            threads,
            i,
        ),
{
    let cs = chunk_size(total, threads);
    lemma_size_suffices(total, threads);
    assert((i + 1) * cs == i * cs + cs) by (nonlinear_arith);
    assert(0 <= i * cs) by (nonlinear_arith)
        requires
            0 <= i,
            0 <= cs,
    ;
}

/// A plan tiles its buffer: for every length and every thread count of at
/// least one, the planned chunks lie end to end from zero to the length.
pub proof fn lemma_plan_is_partition(total: usize, threads: usize)
    requires
        threads >= 1,
    ensures
        is_partition(planned(total, threads), total as int),
{
    let chunks = planned(total, threads);
    let n = task_count(total as int, threads as int);
    assert forall|i: int| 0 <= i < chunks.len() implies #[trigger] follows_on(chunks, i) by {
        lemma_offset_step(total as int, threads as int, i);
        if i > 0 {
            lemma_offset_step(total as int, threads as int, i - 1);
        } else {
            assert(0 * chunk_size(total as int, threads as int) == 0);
        }
    }
    lemma_size_suffices(total as int, threads as int);
    if n > 0 {
        lemma_offset_step(total as int, threads as int, n - 1);
    }
}

/// In a partition no chunk reaches beyond the buffer.
pub proof fn lemma_partition_bounded(chunks: Seq<Chunk>, total: int, i: int)
    requires
        is_partition(chunks, total),
        0 <= i < chunks.len(),
    ensures
        chunks[i].end() <= total,
    decreases chunks.len() - i,
{
    if i + 1 < chunks.len() {
        assert(follows_on(chunks, i + 1));
        lemma_partition_bounded(chunks, total, i + 1);
    }
}

/// In a partition every chunk ends at or before the start of each later one:
/// the chunks are pairwise disjoint and in ascending order.
pub proof fn lemma_partition_disjoint(chunks: Seq<Chunk>, total: int, i: int, j: int)
    requires
        is_partition(chunks, total),
        0 <= i < j < chunks.len(),
    ensures
        chunks[i].end() <= chunks[j].offset,
    decreases j - i,
{
    assert(follows_on(chunks, j));
    if i + 1 < j {
        lemma_partition_disjoint(chunks, total, i, j - 1);
    }
}

/// A partition without its last chunk tiles the buffer up to where that chunk starts.
pub proof fn lemma_partition_front(chunks: Seq<Chunk>, total: int)
    requires
        is_partition(chunks, total),
        chunks.len() > 0,
    ensures
        is_partition(chunks.drop_last(), chunks.last().offset as int),
{
    let front = chunks.drop_last();
    assert(follows_on(chunks, chunks.len() - 1));
    assert forall|i: int| 0 <= i < front.len() implies #[trigger] follows_on(front, i) by {
        assert(follows_on(chunks, i));
    }
}

/// In a partition every index of the buffer lies in some chunk.
pub proof fn lemma_partition_covers(chunks: Seq<Chunk>, total: int, k: int)
    requires
        is_partition(chunks, total),
        0 <= k < total,
    ensures
        covers(chunks, k),
    decreases chunks.len(),
{
    let last = chunks.len() - 1;
    if !chunks[last].holds(k) {
        let front = chunks.drop_last();
        lemma_partition_front(chunks, total);
        lemma_partition_covers(front, chunks[last].offset as int, k);
    }
}

/// The planned chunks are pairwise disjoint and in ascending order, none
/// reaches beyond the buffer, and together they hold every index of it.
pub proof fn lemma_plan_tiles(total: usize, threads: usize)
    requires
        threads >= 1,
    ensures
        forall|i: int, j: int|
            0 <= i < j < planned(total, threads).len() ==> (#[trigger] planned(
                total,
                threads,
            )[i]).end() <= (#[trigger] planned(total, threads)[j]).offset,
        forall|i: int|
            0 <= i < planned(total, threads).len() ==> (#[trigger] planned(
                total,
                threads,
            )[i]).end() <= total,
        forall|k: int| 0 <= k < total ==> #[trigger] covers(planned(total, threads), k),
{
    let chunks = planned(total, threads);
    lemma_plan_is_partition(total, threads);
    assert forall|i: int, j: int| 0 <= i < j < chunks.len() implies (#[trigger] chunks[i]).end()
        <= (#[trigger] chunks[j]).offset by {
        lemma_partition_disjoint(chunks, total as int, i, j);
    }
    assert forall|i: int| 0 <= i < chunks.len() implies (#[trigger] chunks[i]).end() <= total by {
        lemma_partition_bounded(chunks, total as int, i);
    }
    assert forall|k: int| 0 <= k < total implies #[trigger] covers(chunks, k) by {
        lemma_partition_covers(chunks, total as int, k);
    }
}

/// Where the nominal length fits in front of the last chunk, every chunk but
/// the last has exactly that length and the last one takes the remainder.
pub proof fn lemma_plan_even(total: usize, threads: usize, i: int)
    requires
        threads >= 1,
        0 <= i < planned(total, threads).len(),
        chunk_size(total as int, threads as int) * (planned(total, threads).len() - 1) <= total,
    ensures
        planned(total, threads)[i].offset == i * chunk_size(total as int, threads as int),
        i < planned(total, threads).len() - 1 ==> planned(total, threads)[i].length == chunk_size(
            total as int,
            threads as int,
        ),
        i == planned(total, threads).len() - 1 ==> planned(total, threads)[i].length == total
            - chunk_size(total as int, threads as int) * (planned(total, threads).len() - 1),
{
    let n = task_count(total as int, threads as int);
    let cs = chunk_size(total as int, threads as int);
    lemma_size_suffices(total as int, threads as int);
    assert(i * cs <= (n - 1) * cs) by (nonlinear_arith)
        requires
            0 <= i <= n - 1,
            0 <= cs,
    ;
    assert(cs * (n - 1) == (n - 1) * cs) by (nonlinear_arith);
    assert((i + 1) * cs == i * cs + cs) by (nonlinear_arith);
    assert(0 <= i * cs) by (nonlinear_arith)
        requires
            0 <= i,
            0 <= cs,
    ;
    if i < n - 1 {
        assert((i + 1) * cs <= (n - 1) * cs) by (nonlinear_arith)
            requires
                0 <= i + 1 <= n - 1,
                0 <= cs,
        ;
    }
}

/// With at least as many threads as elements the plan has one chunk of
/// length one for each element.
pub proof fn lemma_plan_clamped(total: usize, threads: usize)
    requires
        threads >= total,
    ensures
        planned(total, threads) == Seq::new(
            total as nat,
            |i: int| (Chunk { offset: i as usize, length: 1 }),
        ),
{
    let unit = Seq::new(total as nat, |i: int| Chunk { offset: i as usize, length: 1 });
    assert forall|i: int| 0 <= i < total implies planned(total, threads)[i] == unit[i] by {
        lemma_fundamental_div_mod_converse(total + total - 1, total as int, 1, total - 1);
    }
    assert(planned(total, threads) =~= unit);
}

/// With one thread and a buffer that is not empty the plan is the whole buffer as one chunk.
pub proof fn lemma_plan_single(total: usize)
    requires
        total > 0,
    ensures
        planned(total, 1) == seq![(Chunk { offset: 0, length: total })],
{
    lemma_fundamental_div_mod_converse(total + 1 - 1, 1, total as int, 0);
}

/// An empty buffer gets an empty plan, whatever the number of threads.
pub proof fn lemma_plan_empty(threads: usize)
    ensures
        planned(0, threads) == Seq::<Chunk>::empty(),
{
}

} // verus!
