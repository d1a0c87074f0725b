//! What a run chunk by chunk amounts to, against one run over the whole buffer.
//!
//! Each task leaves its view as some sequence of elements; laid end to end in
//! the order of the plan, these parts are what the buffer ends up as. For a
//! kernel that works element by element that is what one call of the kernel
//! on the whole buffer would have left.

use crate::chunk::{
    is_partition, lemma_partition_bounded, lemma_partition_front, lemma_plan_is_partition,
    lemma_plan_single, planned, Chunk,
};
use crate::view::window;
use vstd::prelude::*;

verus! {

/// What a mapping kernel that works element by element makes of a
/// destination: at every index, `g` of the source element and the
/// destination element there.
pub open spec fn mapped<T>(g: spec_fn(T, T) -> T, src: Seq<T>, dest: Seq<T>) -> Seq<T> {
    Seq::new(dest.len(), |i: int| g(src[i], dest[i]))
}

/// What an in-place kernel that works element by element makes of a buffer:
/// at every index, `g` of the element there.
pub open spec fn rewritten<T>(g: spec_fn(T) -> T, dest: Seq<T>) -> Seq<T> {
    Seq::new(dest.len(), |i: int| g(dest[i]))
}

/// Mapping element by element, once on each chunk of a partition, gives
/// what one mapping of the whole source into the whole destination gives.
pub proof fn lemma_map_chunked_equals_whole<T>(
    g: spec_fn(T, T) -> T,
    chunks: Seq<Chunk>,
    src: Seq<T>,
    dest: Seq<T>,
    parts: Seq<Seq<T>>,
)
    requires
        is_partition(chunks, dest.len() as int),
        src.len() == dest.len(),
        parts.len() == chunks.len(),
        forall|k: int|
            0 <= k < chunks.len() ==> #[trigger] parts[k] == mapped(
                g,
                window(src, chunks[k]),
                window(dest, chunks[k]),
            ),
    ensures
        parts.flatten() == mapped(g, src, dest),
    decreases chunks.len(),
{
    if chunks.len() > 0 {
        let cut = chunks.last().offset as int;
        let front = chunks.drop_last();
        let src_front = src.subrange(0, cut);
        let dest_front = dest.subrange(0, cut);
        let parts_front = parts.drop_last();
        lemma_partition_front(chunks, dest.len() as int);
        assert forall|k: int| 0 <= k < front.len() implies #[trigger] parts_front[k] == mapped(
            g,
            window(src_front, front[k]),
            window(dest_front, front[k]),
        ) by {
            lemma_partition_bounded(front, cut, k);
        }
        lemma_map_chunked_equals_whole(g, front, src_front, dest_front, parts_front);
        assert(parts =~= parts_front.push(parts.last()));
        parts_front.lemma_flatten_push(parts.last());
    }
}

/// Rewriting element by element, once on each chunk of a partition, gives
/// what one rewriting of the whole buffer gives.
pub proof fn lemma_in_place_chunked_equals_whole<T>(
    g: spec_fn(T) -> T,
    chunks: Seq<Chunk>,
    dest: Seq<T>,
    parts: Seq<Seq<T>>,
)
    requires
        is_partition(chunks, dest.len() as int),
        parts.len() == chunks.len(),
        forall|k: int|
            0 <= k < chunks.len() ==> #[trigger] parts[k] == rewritten(g, window(dest, chunks[k])),
    ensures
        parts.flatten() == rewritten(g, dest),
{
    let by_pairs = |s: T, d: T| g(d);
    assert forall|k: int| 0 <= k < chunks.len() implies #[trigger] parts[k] == mapped(
        by_pairs,
        window(dest, chunks[k]),
        window(dest, chunks[k]),
    ) by {
        assert(rewritten(g, window(dest, chunks[k])) =~= mapped(
            by_pairs,
            window(dest, chunks[k]),
            window(dest, chunks[k]),
        ));
    }
    lemma_map_chunked_equals_whole(by_pairs, chunks, dest, dest, parts);
}

/// For every number of threads of at least one, rewriting element by element
/// once on each planned chunk gives what one rewriting of the whole buffer
/// gives.
pub proof fn lemma_in_place_planned_equals_whole<T>(
    g: spec_fn(T) -> T,
    threads: usize,
    dest: Seq<T>,
    parts: Seq<Seq<T>>,
)
    requires
        threads >= 1,
        dest.len() <= usize::MAX,
        parts.len() == planned(dest.len() as usize, threads).len(),
        forall|k: int|
            0 <= k < parts.len() ==> #[trigger] parts[k] == rewritten(
                g,
                window(dest, planned(dest.len() as usize, threads)[k]),
            ),
    ensures
        parts.flatten() == rewritten(g, dest),
{
    lemma_plan_is_partition(dest.len() as usize, threads);
    lemma_in_place_chunked_equals_whole(g, planned(dest.len() as usize, threads), dest, parts);
}

/// For every number of threads of at least one: where the source holds `zero`
/// at every index and the kernel makes `c` of `zero` and any destination
/// element, as a kernel that adds `c` to the source element does, mapping
/// once on each planned chunk leaves `c` at every index of the destination.
pub proof fn lemma_map_planned_constant<T>(
    g: spec_fn(T, T) -> T,
    zero: T,
    c: T,
    threads: usize,
    src: Seq<T>,
    dest: Seq<T>,
    parts: Seq<Seq<T>>,
)
    requires
        threads >= 1,
        src.len() == dest.len() <= usize::MAX,
        parts.len() == planned(dest.len() as usize, threads).len(),
        forall|k: int|
            0 <= k < parts.len() ==> #[trigger] parts[k] == mapped(
                g,
                window(src, planned(dest.len() as usize, threads)[k]),
                window(dest, planned(dest.len() as usize, threads)[k]),
            ),
        forall|i: int| 0 <= i < src.len() ==> src[i] == zero,
        forall|d: T| #[trigger] g(zero, d) == c,
    ensures
        parts.flatten().len() == dest.len(),
        forall|i: int| 0 <= i < dest.len() ==> parts.flatten()[i] == c,
{
    lemma_plan_is_partition(dest.len() as usize, threads);
    lemma_map_chunked_equals_whole(g, planned(dest.len() as usize, threads), src, dest, parts);
}

/// With one thread the one task works on the whole buffer, and the buffer
/// ends up as what that task made of it.
pub proof fn lemma_single_thread_whole<T>(buffer: Seq<T>, parts: Seq<Seq<T>>)
    requires
        0 < buffer.len() <= usize::MAX,
        parts.len() == 1,
    ensures
        planned(buffer.len() as usize, 1).len() == 1,
        window(buffer, planned(buffer.len() as usize, 1)[0]) == buffer,
        parts.flatten() == parts[0],
{
    lemma_plan_single(buffer.len() as usize);
    parts.lemma_flatten_one_element();
}

} // verus!
