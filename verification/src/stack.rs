//! A general purpose threadsafe FILO/LIFO stack.

use vstd::prelude::*;

verus! {

/// Relies on `crossbeam_epoch::pin`: pins the current epoch and hands back
/// the guard; nothing is promised of the guard's contents.
#[verifier::external_body]
pub fn aquire_guard() -> crossbeam_epoch::Guard {
    crossbeam_epoch::pin()
}

/// A stack: elements leave in the reverse of the order they entered.
/// The `_with_guard` variants take a pre-acquired epoch pin so that bulk
/// callers can amortize the cost of pinning over many operations.
pub struct ConcurrentStack<T> {
    data: Vec<T>,
}

impl<T> View for ConcurrentStack<T> {
    type V = Seq<T>;

    closed spec fn view(&self) -> Seq<T> {
        self.data@
    }
}

impl<T> ConcurrentStack<T> {
    pub fn new() -> (r: Self)
        ensures
            r@ == Seq::<T>::empty(),
    {
        Self { data: Vec::new() }
    }

    /// Push an element onto the top of the stack.
    pub fn push(&mut self, data: T)
        ensures
            final(self)@ == old(self)@.push(data),
    {
        let guard = aquire_guard();
        self.push_with_guard(data, &guard);
    }

    /// Pop the most recently pushed element, if one remains.
    pub fn pop(&mut self) -> (r: Option<T>)
        ensures
            match r {
                Some(v) => old(self)@.len() > 0 && v == old(self)@.last() && final(self)@ == old(
                    self,
                )@.drop_last(),
                None => old(self)@.len() == 0 && final(self)@ == old(self)@,
            },
    {
        let guard = aquire_guard();
        self.pop_with_guard(&guard)
    }

    /// As `push`, under a caller-held epoch pin.
    pub fn push_with_guard(&mut self, data: T, guard: &crossbeam_epoch::Guard)
        ensures
            final(self)@ == old(self)@.push(data),
    {
        let _ = guard;
        self.data.push(data);
    }

    /// As `pop`, under a caller-held epoch pin.
    pub fn pop_with_guard(&mut self, guard: &crossbeam_epoch::Guard) -> (r: Option<T>)
        ensures
            match r {
                Some(v) => old(self)@.len() > 0 && v == old(self)@.last() && final(self)@ == old(
                    self,
                )@.drop_last(),
                None => old(self)@.len() == 0 && final(self)@ == old(self)@,
            },
    {
        let _ = guard;
        let r = self.data.pop();
        proof {
            if old(self)@.len() > 0 {
                assert(final(self)@ =~= old(self)@.drop_last());
            }
        }
        r
    }
}

impl<T> Default for ConcurrentStack<T> {
    fn default() -> (r: Self)
        ensures
            r@ == Seq::<T>::empty(),
    {
        Self::new()
    }
}

} // verus!
