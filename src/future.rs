use std::sync::Arc;
use vstd::prelude::*;

verus! {

/// A one-shot value cell shared by one producer and many consumers.
///
/// The value is held behind an `Arc`, so every consumer gets the same buffer.
/// Only the first completion publishes a value; later ones are ignored.
pub struct ManualFuture<T> {
    value: Option<Arc<T>>,
}

impl<T> View for ManualFuture<T> {
    type V = Option<T>;

    closed spec fn view(&self) -> Option<T> {
        match self.value {
            Some(v) => Some(*v),
            None => None,
        }
    }
}

impl<T> ManualFuture<T> {
    /// An empty future.
    pub fn new() -> (r: Self)
        ensures
            r@ == None::<T>,
    {
        ManualFuture { value: None }
    }

    /// A future that already holds `v`.
    pub fn new_completed(v: T) -> (r: Self)
        ensures
            r@ == Some(v),
    {
        ManualFuture { value: Some(Arc::new(v)) }
    }

    /// Publishes `v` unless a value is already there; returns whether it did.
    pub fn complete(&mut self, v: T) -> (published: bool)
        ensures
            published == (old(self)@ is None),
            final(self)@ == completed_with(old(self)@, v),
    {
        if self.value.is_none() {
            self.value = Some(Arc::new(v));
            true
        } else {
            false
        }
    }

    /// The value if it has been published, without waiting.
    pub fn now(&self) -> (r: Option<Arc<T>>)
        ensures
            r is Some <==> self@ is Some,
            r is Some ==> *r->0 == self@->0,
    {
        match &self.value {
            Some(v) => Some(v.clone()),
            None => None,
        }
    }

    pub fn is_completed(&self) -> (r: bool)
        ensures
            r == (self@ is Some),
    {
        self.value.is_some()
    }
}

/// What a future holds after `complete(v)`, given what it held before.
pub open spec fn completed_with<T>(before: Option<T>, v: T) -> Option<T> {
    if before is None {
        Some(v)
    } else {
        before
    }
}

/// Completing a future twice keeps the first value: after `complete(a)` and
/// then `complete(b)`, the future holds what it held after `complete(a)`
/// alone, and that is `a` when it started empty.
pub proof fn lemma_complete_twice_keeps_first<T>(before: Option<T>, a: T, b: T)
    ensures
        completed_with(completed_with(before, a), b) == completed_with(before, a),
        before is None ==> completed_with(completed_with(before, a), b) == Some(a),
{
}

} // verus!
