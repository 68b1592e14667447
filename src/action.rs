//! A list of pending actions, filled during a frame and drained in one go.
use vstd::prelude::*;

verus! {

/// Actions queued in the order they were pushed.
pub struct ActionList<T>(Vec<T>);

impl<T> ActionList<T> {
    pub closed spec fn view(&self) -> Seq<T> {
        self.0@
    }

    pub fn new() -> (r: ActionList<T>)
        ensures
            r.view() == Seq::<T>::empty(),
    {
        ActionList(Vec::new())
    }

    /// Appends an action.
    pub fn push(&mut self, val: T)
        ensures
            final(self).view() == old(self).view().push(val),
    {
        self.0.push(val);
    }

    /// Takes every queued action, leaving the list empty.
    pub fn drain(&mut self) -> (r: Vec<T>)
        ensures
            r@ == old(self).view(),
            final(self).view() == Seq::<T>::empty(),
    {
        let mut out: Vec<T> = Vec::new();
        std::mem::swap(&mut out, &mut self.0);
        out
    }

    pub fn len(&self) -> (r: usize)
        ensures
            r == self.view().len(),
    {
        self.0.len()
    }
}

impl<T> Default for ActionList<T> {
    fn default() -> (r: ActionList<T>)
        ensures
            r.view() == Seq::<T>::empty(),
    {
        ActionList(Vec::new())
    }
}

} // verus!
