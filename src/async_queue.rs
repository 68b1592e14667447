//! The ordered completion queue: tasks arrive tagged with their place in the schedule,
//! in any order, and are released strictly by that place.
use vstd::prelude::*;

verus! {

/// Tasks waiting to be released, keyed by schedule position, with the cursor of the next
/// position to release and whether a runner is draining the queue.
pub struct TaskQueue<T> {
    list: Vec<Option<T>>,
    index: usize,
    is_running: bool,
}

/// The order in which tasks leave a queue whose cursor stands at `next`: the task at the
/// cursor, then the one after it, until a position is empty.
pub open spec fn release_order<T>(pending: Map<int, T>, next: int, fuel: nat) -> Seq<T>
    decreases fuel,
{
    if fuel == 0 || !pending.contains_key(next) {
        Seq::empty()
    } else {
        seq![pending[next]] + release_order(pending.remove(next), next + 1, (fuel - 1) as nat)
    }
}

/// Tasks leave in the order of their positions: the `i`-th released task is the one
/// pushed at position `next + i`, whatever order the pushes came in.
pub proof fn lemma_release_in_index_order<T>(pending: Map<int, T>, next: int, fuel: nat, i: int)
    requires
        0 <= i < release_order(pending, next, fuel).len(),
    ensures
        pending.contains_key(next + i),
        release_order(pending, next, fuel)[i] == pending[next + i],
    decreases fuel,
{
    let rest = release_order(pending.remove(next), next + 1, (fuel - 1) as nat);
    assert(fuel > 0 && pending.contains_key(next));
    assert(release_order(pending, next, fuel) == seq![pending[next]] + rest);
    if i > 0 {
        lemma_release_in_index_order(pending.remove(next), next + 1, (fuel - 1) as nat, i - 1);
        assert(next + 1 + (i - 1) == next + i);
    }
}

/// Pushes at distinct positions commute: the queue ends up the same whichever of two
/// tasks arrives first.
pub proof fn lemma_push_order_irrelevant<T>(pending: Map<int, T>, i: int, a: T, j: int, b: T)
    requires
        i != j,
    ensures
        pending.insert(i, a).insert(j, b) == pending.insert(j, b).insert(i, a),
{
    assert(pending.insert(i, a).insert(j, b) =~= pending.insert(j, b).insert(i, a));
}

impl<T> TaskQueue<T> {
    /// The waiting tasks by position.
    pub closed spec fn pending(&self) -> Map<int, T> {
        Map::new(
            |i: int| 0 <= i < self.list@.len() && self.list@[i] is Some,
            |i: int| self.list@[i]->Some_0,
        )
    }

    /// The next position to release.
    pub closed spec fn next_index(&self) -> nat {
        self.index as nat
    }

    pub closed spec fn running(&self) -> bool {
        self.is_running
    }

    /// Every waiting task lies at or after the cursor.
    pub closed spec fn wf(&self) -> bool {
        forall|i: int| 0 <= i < self.index && i < self.list@.len() ==> #[trigger] self.list@[i] is None
    }

    /// Finitely many tasks wait, all at positions inside the list.
    pub proof fn lemma_pending_finite(&self)
        ensures
            self.pending().dom().finite(),
    {
        vstd::set_lib::lemma_int_range(0, self.list@.len() as int);
        assert(self.pending().dom().subset_of(vstd::set_lib::set_int_range(0, self.list@.len() as int)));
        vstd::set_lib::lemma_len_subset(self.pending().dom(), vstd::set_lib::set_int_range(0, self.list@.len() as int));
    }

    pub fn new() -> (r: TaskQueue<T>)
        ensures
            r.wf(),
            r.pending() == Map::<int, T>::empty(),
            r.next_index() == 0,
            !r.running(),
    {
        let r = TaskQueue { list: Vec::new(), index: 0, is_running: false };
        assert(r.pending() =~= Map::<int, T>::empty());
        r
    }

    pub fn next(&self) -> (r: usize)
        ensures
            r == self.next_index(),
    {
        self.index
    }

    pub fn is_running(&self) -> (r: bool)
        ensures
            r == self.running(),
    {
        self.is_running
    }

    /// Stores `task` at position `index`. Returns whether the caller must start a runner:
    /// the task sits at the cursor and no runner is draining the queue.
    pub fn push(&mut self, index: usize, task: T) -> (start: bool)
        requires
            old(self).wf(),
            index >= old(self).next_index(),
            index < usize::MAX,
        ensures
            final(self).wf(),
            final(self).pending() == old(self).pending().insert(index as int, task),
            final(self).next_index() == old(self).next_index(),
            start == (index == old(self).next_index() && !old(self).running()),
            final(self).running() == (old(self).running() || start),
    {
        let ghost pend0 = self.pending();
        while self.list.len() <= index
            invariant
                self.wf(),
                self.pending() == pend0,
                self.index == old(self).index,
                self.is_running == old(self).is_running,
                index < usize::MAX,
            decreases index + 1 - self.list@.len(),
        {
            let ghost l0 = self.list@;
            self.list.push(None);
            proof {
                assert(self.pending() =~= pend0);
            }
        }
        self.list.set(index, Some(task));
        proof {
            assert(self.pending() =~= pend0.insert(index as int, task));
        }
        let start = index == self.index && !self.is_running;
        if start {
            self.is_running = true;
        }
        start
    }

    /// One step of the runner: takes the task at the cursor and advances the cursor, or,
    /// when that position is still empty, stops the runner and returns `None`.
    pub fn pop_next(&mut self) -> (r: Option<T>)
        requires
            old(self).wf(),
        ensures
            final(self).wf(),
            old(self).pending().contains_key(old(self).next_index() as int) ==> {
                &&& r == Some(old(self).pending()[old(self).next_index() as int])
                &&& final(self).pending() == old(self).pending().remove(old(self).next_index() as int)
                &&& final(self).next_index() == old(self).next_index() + 1
                &&& final(self).running() == old(self).running()
            },
            !old(self).pending().contains_key(old(self).next_index() as int) ==> {
                &&& r.is_none()
                &&& final(self).pending() == old(self).pending()
                &&& final(self).next_index() == old(self).next_index()
                &&& !final(self).running()
            },
    {
        let i = self.index;
        if i < self.list.len() {
            let ghost pend0 = self.pending();
            let ghost l0 = self.list@;
            let slot = self.list.remove(i);
            self.list.insert(i, None);
            proof {
                assert(self.list@ =~= l0.update(i as int, None));
            }
            if slot.is_some() {
                self.index = i + 1;
                proof {
                    assert(self.pending() =~= pend0.remove(i as int));
                }
                return slot;
            }
            proof {
                assert(self.pending() =~= pend0);
            }
        }
        self.is_running = false;
        None
    }

    /// Releases every task that is ready, in order: the runner's loop.
    pub fn drain_ready(&mut self) -> (r: Vec<T>)
        requires
            old(self).wf(),
        ensures
            final(self).wf(),
            r@ == release_order(old(self).pending(), old(self).next_index() as int, old(self).pending().len()),
            !final(self).running(),
            final(self).next_index() == old(self).next_index() + r@.len(),
            !final(self).pending().contains_key(final(self).next_index() as int),
            forall|k: int|
                #[trigger] final(self).pending().contains_key(k) == (old(self).pending().contains_key(k) && !(
                old(self).next_index() <= k < old(self).next_index() + r@.len())),
            forall|k: int|
                #[trigger] final(self).pending().contains_key(k) ==> final(self).pending()[k] == old(self).pending()[k],
    {
        proof {
            self.lemma_pending_finite();
        }
        let mut out: Vec<T> = Vec::new();
        let ghost pend0 = self.pending();
        let ghost n0 = self.next_index() as int;
        let ghost f0 = pend0.len();
        loop
            invariant
                self.wf(),
                self.pending().dom().finite(),
                out@.len() + self.pending().len() == f0,
                self.next_index() as int == n0 + out@.len(),
                release_order(pend0, n0, f0) == out@ + release_order(
                    self.pending(),
                    self.next_index() as int,
                    self.pending().len(),
                ),
                forall|k: int|
                    #[trigger] self.pending().contains_key(k) == (pend0.contains_key(k) && !(n0 <= k < n0
                        + out@.len())),
                forall|k: int| #[trigger] self.pending().contains_key(k) ==> self.pending()[k] == pend0[k],
            ensures
                !self.running(),
                !self.pending().contains_key(self.next_index() as int),
                release_order(pend0, n0, f0) == out@,
            decreases self.pending().len(),
        {
            let ghost pb = self.pending();
            let ghost nb = self.next_index() as int;
            match self.pop_next() {
                Some(t) => {
                    proof {
                        self.lemma_pending_finite();
                        assert(pb.contains_key(nb));
                        assert(pb.remove(nb).len() == pb.len() - 1);
                        assert(release_order(pb, nb, pb.len()) == seq![t] + release_order(
                            pb.remove(nb),
                            nb + 1,
                            (pb.len() - 1) as nat,
                        ));
                    }
                    let ghost out0 = out@;
                    out.push(t);
                    proof {
                        let rest = release_order(self.pending(), self.next_index() as int, self.pending().len());
                        assert(out@ + rest =~= out0 + (seq![t] + rest));
                    }
                },
                None => {
                    proof {
                        if pb.len() > 0 {
                            assert(release_order(pb, nb, pb.len()) =~= Seq::<T>::empty());
                        }
                        assert(out@ + Seq::<T>::empty() =~= out@);
                    }
                    break;
                },
            }
        }
        out
    }

    /// Moves the cursor back to the start for the next frame.
    pub fn reset(&mut self)
        ensures
            final(self).wf(),
            final(self).next_index() == 0,
            final(self).pending() == old(self).pending(),
            final(self).running() == old(self).running(),
    {
        self.index = 0;
        proof {
            assert(self.pending() =~= old(self).pending());
        }
    }
}

} // verus!
