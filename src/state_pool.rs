//! The state pool: per-node execution state, handed back after use and handed out
//! again to the next node that asks for state of the same type.
use vstd::prelude::*;
use std::any::TypeId;

verus! {

#[verifier::external_type_specification]
#[verifier::external_body]
pub struct ExTypeId(std::any::TypeId);

/// Relies on `TypeId`'s `==`: two type ids are equal exactly when they identify the same
/// type, that is when they are the same value.
pub assume_specification[ <std::any::TypeId as PartialEq>::eq ](a: &TypeId, b: &TypeId) -> (r: bool)
    ensures
        r == (*a == *b),
;

/// Stored states, one stack per type.
pub struct SystemStatePoolImpl<S> {
    map: Vec<(TypeId, Vec<S>)>,
}

impl<S> SystemStatePoolImpl<S> {
    pub closed spec fn has_key(&self, k: TypeId) -> bool {
        exists|i: int| 0 <= i < self.map@.len() && #[trigger] self.map@[i].0 == k
    }

    /// The states stored for type `k`, the most recently returned last.
    pub closed spec fn stack_of(&self, k: TypeId) -> Seq<S> {
        if self.has_key(k) {
            let i = choose|i: int| 0 <= i < self.map@.len() && #[trigger] self.map@[i].0 == k;
            self.map@[i].1@
        } else {
            Seq::empty()
        }
    }

    /// Each type has at most one stack.
    pub closed spec fn wf(&self) -> bool {
        forall|i: int, j: int|
            0 <= i < self.map@.len() && 0 <= j < self.map@.len() && i != j ==> #[trigger] self.map@[i].0
                != #[trigger] self.map@[j].0
    }

    proof fn lemma_stack_at(&self, i: int)
        requires
            self.wf(),
            0 <= i < self.map@.len(),
        ensures
            self.stack_of(self.map@[i].0) == self.map@[i].1@,
    {
        let k = self.map@[i].0;
        assert(self.has_key(k));
        let j = choose|j: int| 0 <= j < self.map@.len() && #[trigger] self.map@[j].0 == k;
        assert(i == j);
    }

    pub fn new() -> (r: SystemStatePoolImpl<S>)
        ensures
            r.wf(),
            forall|k: TypeId| #[trigger] r.stack_of(k) == Seq::<S>::empty(),
    {
        SystemStatePoolImpl { map: Vec::new() }
    }

    fn find(&self, k: &TypeId) -> (r: Option<usize>)
        requires
            self.wf(),
        ensures
            match r {
                Some(i) => i < self.map@.len() && self.map@[i as int].0 == *k,
                None => !self.has_key(*k),
            },
    {
        let mut i: usize = 0;
        while i < self.map.len()
            invariant
                i <= self.map@.len(),
                forall|j: int| 0 <= j < i ==> #[trigger] self.map@[j].0 != *k,
            decreases self.map@.len() - i,
        {
            if self.map[i].0 == *k {
                return Some(i);
            }
            i += 1;
        }
        None
    }

    /// Returns `state` to the pool under type `k`.
    pub fn set(&mut self, k: TypeId, state: S)
        requires
            old(self).wf(),
        ensures
            final(self).wf(),
            final(self).stack_of(k) == old(self).stack_of(k).push(state),
            forall|o: TypeId| o != k ==> #[trigger] final(self).stack_of(o) == old(self).stack_of(o),
    {
        let ghost old_self = *self;
        match self.find(&k) {
            Some(i) => {
                proof {
                    old_self.lemma_stack_at(i as int);
                }
                let (key, mut v) = self.map.remove(i);
                v.push(state);
                self.map.insert(i, (key, v));
                proof {
                    assert(self.map@ =~= old_self.map@.update(i as int, (key, v)));
                    assert forall|a: int, b: int|
                        0 <= a < self.map@.len() && 0 <= b < self.map@.len() && a != b implies #[trigger] self.map@[a].0
                        != #[trigger] self.map@[b].0 by {
                        assert(self.map@[a].0 == old_self.map@[a].0);
                        assert(self.map@[b].0 == old_self.map@[b].0);
                    }
                    self.lemma_stack_at(i as int);
                    assert forall|o: TypeId| o != k implies #[trigger] self.stack_of(o) == old_self.stack_of(o) by {
                        if old_self.has_key(o) {
                            let j = choose|j: int| 0 <= j < old_self.map@.len() && #[trigger] old_self.map@[j].0 == o;
                            old_self.lemma_stack_at(j);
                            self.lemma_stack_at(j);
                        } else {
                            if self.has_key(o) {
                                let j = choose|j: int| 0 <= j < self.map@.len() && #[trigger] self.map@[j].0 == o;
                                assert(old_self.map@[j].0 == o);
                            }
                        }
                    }
                }
            },
            None => {
                let mut v: Vec<S> = Vec::new();
                v.push(state);
                self.map.push((k, v));
                proof {
                    let n = old_self.map@.len() as int;
                    assert(self.map@[n].0 == k);
                    assert forall|a: int, b: int|
                        0 <= a < self.map@.len() && 0 <= b < self.map@.len() && a != b implies #[trigger] self.map@[a].0
                        != #[trigger] self.map@[b].0 by {
                        if a < n && b < n {
                            assert(self.map@[a] == old_self.map@[a]);
                            assert(self.map@[b] == old_self.map@[b]);
                        } else if a < n {
                            assert(self.map@[a] == old_self.map@[a]);
                        } else if b < n {
                            assert(self.map@[b] == old_self.map@[b]);
                        }
                    }
                    self.lemma_stack_at(n);
                    assert(v@ =~= Seq::<S>::empty().push(state));
                    assert forall|o: TypeId| o != k implies #[trigger] self.stack_of(o) == old_self.stack_of(o) by {
                        if old_self.has_key(o) {
                            let j = choose|j: int| 0 <= j < old_self.map@.len() && #[trigger] old_self.map@[j].0 == o;
                            old_self.lemma_stack_at(j);
                            assert(self.map@[j] == old_self.map@[j]);
                            self.lemma_stack_at(j);
                        } else {
                            if self.has_key(o) {
                                let j = choose|j: int| 0 <= j < self.map@.len() && #[trigger] self.map@[j].0 == o;
                                if j < n {
                                    assert(old_self.map@[j].0 == o);
                                }
                            }
                        }
                    }
                }
            },
        }
    }

    /// Takes the most recently returned state of type `k`, if any.
    pub fn get(&mut self, k: TypeId) -> (r: Option<S>)
        requires
            old(self).wf(),
        ensures
            final(self).wf(),
            old(self).stack_of(k).len() == 0 ==> r.is_none() && final(self).stack_of(k) == old(self).stack_of(k),
            old(self).stack_of(k).len() > 0 ==> r == Some(old(self).stack_of(k).last())
                && final(self).stack_of(k) == old(self).stack_of(k).drop_last(),
            forall|o: TypeId| o != k ==> #[trigger] final(self).stack_of(o) == old(self).stack_of(o),
    {
        let ghost old_self = *self;
        match self.find(&k) {
            Some(i) => {
                proof {
                    old_self.lemma_stack_at(i as int);
                }
                let (key, mut v) = self.map.remove(i);
                let r = v.pop();
                self.map.insert(i, (key, v));
                proof {
                    assert(self.map@ =~= old_self.map@.update(i as int, (key, v)));
                    assert forall|a: int, b: int|
                        0 <= a < self.map@.len() && 0 <= b < self.map@.len() && a != b implies #[trigger] self.map@[a].0
                        != #[trigger] self.map@[b].0 by {
                        assert(self.map@[a].0 == old_self.map@[a].0);
                        assert(self.map@[b].0 == old_self.map@[b].0);
                    }
                    self.lemma_stack_at(i as int);
                    assert forall|o: TypeId| o != k implies #[trigger] self.stack_of(o) == old_self.stack_of(o) by {
                        if old_self.has_key(o) {
                            let j = choose|j: int| 0 <= j < old_self.map@.len() && #[trigger] old_self.map@[j].0 == o;
                            old_self.lemma_stack_at(j);
                            self.lemma_stack_at(j);
                        } else {
                            if self.has_key(o) {
                                let j = choose|j: int| 0 <= j < self.map@.len() && #[trigger] self.map@[j].0 == o;
                                assert(old_self.map@[j].0 == o);
                            }
                        }
                    }
                }
                r
            },
            None => None,
        }
    }
}

} // verus!
