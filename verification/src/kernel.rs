//! Kernel handles: one transformation, shared read-only by every task.

use crate::view::{Movable, MovableMut};
use std::sync::Arc;
use vstd::prelude::*;

verus! {

/// Wraps a transformation in a shared handle.
pub fn kernel<F>(f: F) -> (r: Arc<F>)
    ensures
        *r == f,
{
    Arc::new(f)
}

/// A shared handle on a kernel that reads one view and writes another.
pub struct FnMove2<F> {
    pub f: Arc<F>,
}

/// A shared handle on a kernel that rewrites one view in place.
pub struct FnMove1<F> {
    pub f: Arc<F>,
}

impl<F> FnMove2<F> {
    /// Whether the kernel may be called to read `src` and write a view that shows `dest`.
    pub open spec fn accepts<T>(&self, src: Seq<T>, dest: Seq<T>) -> bool where
        F: Fn(&[T], &mut [T]),
    {
        forall|s: &[T], d: &mut [T]|
            s@ == src && d@ == dest ==> #[trigger] call_requires(*self.f, (s, d))
    }

    /// A handle for one task on the shared kernel `f`.
    pub fn new(f: Arc<F>) -> (r: Self)
        ensures
            r.f == f,
    {
        FnMove2 { f }
    }

    /// Calls the kernel on `src` and `dest`.
    pub fn call<T>(&self, src: &[T], dest: &mut [T]) where F: Fn(&[T], &mut [T])
        requires
            self.accepts(src@, old(dest)@),
        ensures
            exists|d: &mut [T]|
                d@ == old(dest)@ && final(d)@ == final(dest)@ && #[trigger] call_ensures(
                    *self.f,
                    (src, d),
                    (),
                ),
    {
        (self.f)(src, dest);
    }

    /// The body of one task: takes the two views out of their handles and
    /// calls the kernel on them.
    ///
    /// Where a handle is vacant the kernel is not called and nothing is
    /// written; the result says whether the kernel was called.
    pub fn run<'a, T>(self, src: Movable<'a, T>, dest: MovableMut<'a, T>) -> (ran: bool) where
        F: Fn(&[T], &mut [T]),

        requires
            src.view is Some && dest.view is Some ==> self.accepts(
                src.view.unwrap()@,
                dest.view.unwrap()@,
            ),
        ensures
            ran <==> src.view is Some && dest.view is Some,
            ran ==> exists|d: &mut [T]|
                d@ == dest.view.unwrap()@ && final(d)@ == final(dest.view.unwrap())@
                    && #[trigger] call_ensures(*self.f, (src.view.unwrap(), d), ()),
            !ran && dest.view is Some ==> final(dest.view.unwrap())@ == dest.view.unwrap()@,
    {
        let mut dest = dest;
        match (src.get(), dest.get()) {
            (Some(s), Some(d)) => {
                self.call(s, d);
                true
            },
            _ => false,
        }
    }
}

impl<F> FnMove1<F> {
    /// Whether the kernel may be called on a view that shows `dest`.
    pub open spec fn accepts<T>(&self, dest: Seq<T>) -> bool where F: Fn(&mut [T]) {
        forall|d: &mut [T]| d@ == dest ==> #[trigger] call_requires(*self.f, (d,))
    }

    /// A handle for one task on the shared kernel `f`.
    pub fn new(f: Arc<F>) -> (r: Self)
        ensures
            r.f == f,
    {
        FnMove1 { f }
    }

    /// Calls the kernel on `dest`.
    pub fn call<T>(&self, dest: &mut [T]) where F: Fn(&mut [T])
        requires
            self.accepts(old(dest)@),
        ensures
            exists|d: &mut [T]|
                d@ == old(dest)@ && final(d)@ == final(dest)@ && #[trigger] call_ensures(
                    *self.f,
                    (d,),
                    (),
                ),
    {
        (self.f)(dest);
    }

    /// The body of one task: takes the view out of its handle and calls the
    /// kernel on it.
    ///
    /// Where the handle is vacant the kernel is not called; the result says
    /// whether the kernel was called.
    pub fn run<'a, T>(self, dest: MovableMut<'a, T>) -> (ran: bool) where F: Fn(&mut [T])
        requires
            dest.view is Some ==> self.accepts(dest.view.unwrap()@),
        ensures
            ran <==> dest.view is Some,
            ran ==> exists|d: &mut [T]|
                d@ == dest.view.unwrap()@ && final(d)@ == final(dest.view.unwrap())@
                    && #[trigger] call_ensures(*self.f, (d,), ()),
    {
        let mut dest = dest;
        match dest.get() {
            Some(d) => {
                self.call(d);
                true
            },
            None => false,
        }
    }
}

} // verus!
