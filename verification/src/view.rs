//! Views: bounded windows into a buffer, one per chunk, that never overlap.

use crate::chunk::{follows_on, is_partition, lemma_partition_bounded, tiles, Chunk};
use crate::error::ConfigError;
use vstd::prelude::*;

verus! {

/// The part of `buffer` that `chunk` describes.
pub open spec fn window<T>(buffer: Seq<T>, chunk: Chunk) -> Seq<T> {
    buffer.subrange(chunk.offset as int, chunk.end())
}

/// A handle on a read-only view of a buffer, fit to be moved into a task.
///
/// The handle is either vacant or holds one view.
pub struct Movable<'a, T> {
    pub view: Option<&'a [T]>,
}

/// A handle on a mutable view of a buffer, fit to be moved into a task.
///
/// The handle is either vacant or holds one view; the view is handed out once.
pub struct MovableMut<'a, T> {
    pub view: Option<&'a mut [T]>,
}

impl<'a, T> Movable<'a, T> {
    /// Whether the handle holds a view, and the view shows `elements`.
    pub open spec fn shows(&self, elements: Seq<T>) -> bool {
        self.view matches Some(v) && v@ == elements
    }

    /// A handle that holds `view`.
    pub fn new(view: &'a [T]) -> (r: Self)
        ensures
            r.view == Some(view),
    {
        Movable { view: Some(view) }
    }

    /// A handle that holds nothing.
    pub fn vacant() -> (r: Self)
        ensures
            r.view is None,
    {
        Movable { view: None }
    }

    /// The view, or `None` from a vacant handle.
    pub fn get(&self) -> (r: Option<&'a [T]>)
        ensures
            r == self.view,
    {
        self.view
    }
}

impl<'a, T> MovableMut<'a, T> {
    /// Whether the handle holds a view, and the view shows `elements` now.
    pub open spec fn shows(&self, elements: Seq<T>) -> bool {
        self.view matches Some(v) && v@ == elements
    }

    /// A handle that holds `view`: what is written through the handle is written to `view`.
    pub fn new(view: &'a mut [T]) -> (r: Self)
        ensures
            r.shows(old(view)@),
            final(r.view.unwrap())@ == final(view)@,
    {
        MovableMut { view: Some(view) }
    }

    /// A handle that holds nothing.
    pub fn vacant() -> (r: Self)
        ensures
            r.view is None,
    {
        MovableMut { view: None }
    }

    /// Takes the view out of the handle, which is vacant afterwards; `None` from a vacant handle.
    pub fn get(&mut self) -> (r: Option<&'a mut [T]>)
        ensures
            r == old(self).view,
            final(self).view is None,
    {
        self.view.take()
    }
}

/// The read-only view of `buffer` that `chunk` describes.
///
/// A chunk that reaches beyond the buffer is out of range.
pub fn view<'a, T>(buffer: &'a [T], chunk: Chunk) -> (r: Result<Movable<'a, T>, ConfigError>)
    ensures
        r is Ok <==> chunk.end() <= buffer@.len(),
        r matches Err(e) ==> e == ConfigError::OutOfRange,
        r matches Ok(h) ==> h.shows(window(buffer@, chunk)),
{
    let n: usize = buffer.len();
    if chunk.offset > n || chunk.length > n - chunk.offset {
        return Err(ConfigError::OutOfRange);
    }
    let (_, rest) = buffer.split_at(chunk.offset);
    let (middle, _) = rest.split_at(chunk.length);
    assert(middle@ =~= window(buffer@, chunk));
    Ok(Movable::new(middle))
}

/// The mutable view of `buffer` that `chunk` describes.
///
/// What is written through the view lands in the buffer at the chunk's
/// indices, and the rest of the buffer stays as it was. A chunk that reaches
/// beyond the buffer is out of range, and the buffer is left alone.
pub fn view_mut<'a, T>(buffer: &'a mut [T], chunk: Chunk) -> (r: Result<
    MovableMut<'a, T>,
    ConfigError,
>)
    ensures
        r is Ok <==> chunk.end() <= old(buffer)@.len(),
        r matches Err(e) ==> e == ConfigError::OutOfRange && final(buffer)@ == old(buffer)@,
        r matches Ok(h) ==> h.shows(window(old(buffer)@, chunk)),
        r matches Ok(h) ==> final(buffer)@ == old(buffer)@.subrange(0, chunk.offset as int)
            + final(h.view.unwrap())@ + old(buffer)@.subrange(
            chunk.end(),
            old(buffer)@.len() as int,
        ),
{
    let n: usize = buffer.len();
    if chunk.offset > n || chunk.length > n - chunk.offset {
        return Err(ConfigError::OutOfRange);
    }
    let ghost before = buffer@;
    let (_, rest) = buffer.split_at_mut(chunk.offset);
    let (middle, _) = rest.split_at_mut(chunk.length);
    assert(middle@ =~= window(before, chunk));
    Ok(MovableMut::new(middle))
}

/// One read-only view of `buffer` per chunk of `chunks`, in the order of the chunks.
///
/// Chunks that do not tile the buffer are out of range.
pub fn split<'a, T>(buffer: &'a [T], chunks: &Vec<Chunk>) -> (r: Result<
    Vec<Movable<'a, T>>,
    ConfigError,
>)
    ensures
        r is Ok <==> is_partition(chunks@, buffer@.len() as int),
        r matches Err(e) ==> e == ConfigError::OutOfRange,
        r matches Ok(views) ==> views@.len() == chunks@.len(),
        r matches Ok(views) ==> forall|i: int|
            #![trigger views@[i]]
            0 <= i < views@.len() ==> views@[i].shows(window(buffer@, chunks@[i])),
{
    if !tiles(chunks, buffer.len()) {
        return Err(ConfigError::OutOfRange);
    }
    let ghost total = buffer@.len() as int;
    let mut views: Vec<Movable<'a, T>> = Vec::new();
    let mut rest: &'a [T] = buffer;
    let mut i: usize = 0;
    proof {
        if chunks@.len() > 0 {
            assert(follows_on(chunks@, 0));
        }
    }
    while i < chunks.len()
        invariant
            is_partition(chunks@, total),
            total == buffer@.len(),
            i <= chunks@.len(),
            views@.len() == i,
            i < chunks@.len() ==> rest@ == buffer@.subrange(chunks@[i as int].offset as int, total),
            forall|j: int|
                #![trigger views@[j]]
                0 <= j < i ==> views@[j].shows(window(buffer@, chunks@[j])),
        decreases chunks@.len() - i,
    {
        proof {
            lemma_partition_bounded(chunks@, total, i as int);
            if i + 1 < chunks@.len() {
                assert(follows_on(chunks@, i + 1));
            }
        }
        let (head, tail) = rest.split_at(chunks[i].length);
        proof {
            assert(head@ =~= window(buffer@, chunks@[i as int]));
        }
        views.push(Movable::new(head));
        rest = tail;
        i = i + 1;
    }
    Ok(views)
}

/// One mutable view of `buffer` per chunk of `chunks`, in the order of the chunks.
///
/// The views do not overlap: the buffer ends up as what the views end up as,
/// laid end to end. Chunks that do not tile the buffer are out of range, and
/// the buffer is left alone.
pub fn split_mut<'a, T>(buffer: &'a mut [T], chunks: &Vec<Chunk>) -> (r: Result<
    Vec<MovableMut<'a, T>>,
    ConfigError,
>)
    ensures
        r is Ok <==> is_partition(chunks@, old(buffer)@.len() as int),
        r matches Err(e) ==> e == ConfigError::OutOfRange && final(buffer)@ == old(buffer)@,
        r matches Ok(views) ==> views@.len() == chunks@.len(),
        r matches Ok(views) ==> forall|i: int|
            #![trigger views@[i]]
            0 <= i < views@.len() ==> views@[i].shows(window(old(buffer)@, chunks@[i])),
        r matches Ok(views) ==> final(buffer)@ == views@.map_values(
            |h: MovableMut<'a, T>| final(h.view.unwrap())@,
        ).flatten(),
{
    if !tiles(chunks, buffer.len()) {
        return Err(ConfigError::OutOfRange);
    }
    let ghost total = buffer@.len() as int;
    let ghost before = buffer@;
    let ghost after = final(buffer)@;
    let mut views: Vec<MovableMut<'a, T>> = Vec::new();
    let mut rest: &'a mut [T] = buffer;
    let mut i: usize = 0;
    proof {
        if chunks@.len() > 0 {
            assert(follows_on(chunks@, 0));
        }
    }
    while i < chunks.len()
        invariant
            is_partition(chunks@, total),
            total == before.len(),
            i <= chunks@.len(),
            views@.len() == i,
            i < chunks@.len() ==> rest@ == before.subrange(chunks@[i as int].offset as int, total),
            i == chunks@.len() ==> rest@.len() == 0,
            forall|j: int|
                #![trigger views@[j]]
                0 <= j < i ==> views@[j].shows(window(before, chunks@[j])),
            after == views@.map_values(|h: MovableMut<'a, T>| final(h.view.unwrap())@).flatten()
                + final(rest)@,
        decreases chunks@.len() - i,
    {
        proof {
            lemma_partition_bounded(chunks@, total, i as int);
            if i + 1 < chunks@.len() {
                assert(follows_on(chunks@, i + 1));
            }
        }
        let ghost made = views@;
        let (head, tail) = rest.split_at_mut(chunks[i].length);
        proof {
            assert(head@ =~= window(before, chunks@[i as int]));
        }
        let handle = MovableMut::new(head);
        proof {
            let ends = |h: MovableMut<'a, T>| final(h.view.unwrap())@;
            assert(made.push(handle).map_values(ends) =~= made.map_values(ends).push(
                ends(handle),
            ));
            made.map_values(ends).lemma_flatten_push(ends(handle));
        }
        views.push(handle);
        rest = tail;
        i = i + 1;
    }
    Ok(views)
}

} // verus!
