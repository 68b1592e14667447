//! The node executor's decisions for one frame: which node may start, what each node's
//! phase is, and which errors the frame collected. Starting, awaiting and submitting are
//! the caller's work; every command buffer is queued at its node's position in the order.
use vstd::prelude::*;
use crate::graph::NodeId;

verus! {

/// Where a node stands in the current frame.
#[derive(Clone, Copy, Debug, PartialEq, Eq, Structural)]
pub enum NodePhase {
    Idle,
    Running,
    Submitted,
}

/// Whether the application is drawing frames at all (it is not while suspended).
#[derive(Clone, Copy, Debug, PartialEq, Eq, Structural)]
pub enum FrameState {
    Active,
    UnActive,
}

impl Default for FrameState {
    fn default() -> (r: FrameState)
        ensures
            r == FrameState::Active,
    {
        FrameState::Active
    }
}

/// Whether frames run in this state.
pub fn should_run(state: FrameState) -> (r: bool)
    ensures
        r == (state == FrameState::Active),
{
    match state {
        FrameState::Active => true,
        FrameState::UnActive => false,
    }
}

/// Decides whether a frame runs: only while active and while there is a primary window,
/// whose size is then handed on.
pub fn frame_size(state: FrameState, primary_window: Option<(u32, u32)>) -> (r: Option<(u32, u32)>)
    ensures
        state == FrameState::UnActive ==> r.is_none(),
        state == FrameState::Active ==> r == primary_window,
{
    if should_run(state) {
        primary_window
    } else {
        None
    }
}

/// One frame's execution state over a run order. `deps[j]` lists the positions that
/// position `j` waits for; all of them come before `j`.
pub struct FrameRun {
    order: Vec<NodeId>,
    deps: Vec<Vec<usize>>,
    phase: Vec<NodePhase>,
    errors: Vec<(NodeId, String)>,
}

pub open spec fn deps_before(deps: Seq<Seq<usize>>) -> bool {
    forall|j: int, k: int| 0 <= j < deps.len() && 0 <= k < deps[j].len() ==> #[trigger] deps[j][k] < j
}

impl FrameRun {
    pub closed spec fn order_view(&self) -> Seq<NodeId> {
        self.order@
    }

    pub closed spec fn deps_view(&self) -> Seq<Seq<usize>> {
        self.deps@.map_values(|d: Vec<usize>| d@)
    }

    pub closed spec fn phases(&self) -> Seq<NodePhase> {
        self.phase@
    }

    pub closed spec fn error_view(&self) -> Seq<(NodeId, Seq<char>)> {
        self.errors@.map_values(|e: (NodeId, String)| (e.0, e.1@))
    }

    pub open spec fn wf(&self) -> bool {
        &&& self.deps_view().len() == self.order_view().len()
        &&& self.phases().len() == self.order_view().len()
        &&& deps_before(self.deps_view())
    }

    /// Position `j` is idle and everything it waits for has been submitted.
    pub open spec fn ready(&self, j: int) -> bool {
        &&& 0 <= j < self.phases().len()
        &&& self.phases()[j] == NodePhase::Idle
        &&& forall|k: int|
            0 <= k < self.deps_view()[j].len() ==> self.phases()[#[trigger] self.deps_view()[j][k] as int]
                == NodePhase::Submitted
    }

    /// A frame over `order` in which no node has started.
    pub fn new(order: Vec<NodeId>, deps: Vec<Vec<usize>>) -> (r: FrameRun)
        requires
            deps@.len() == order@.len(),
            deps_before(deps@.map_values(|d: Vec<usize>| d@)),
        ensures
            r.wf(),
            r.order_view() == order@,
            r.deps_view() == deps@.map_values(|d: Vec<usize>| d@),
            forall|j: int| 0 <= j < order@.len() ==> #[trigger] r.phases()[j] == NodePhase::Idle,
            r.error_view() == Seq::<(NodeId, Seq<char>)>::empty(),
    {
        let mut phase: Vec<NodePhase> = Vec::new();
        let mut k: usize = 0;
        while k < order.len()
            invariant
                k <= order@.len(),
                phase@.len() == k,
                forall|j: int| 0 <= j < k ==> #[trigger] phase@[j] == NodePhase::Idle,
            decreases order@.len() - k,
        {
            phase.push(NodePhase::Idle);
            k += 1;
        }
        let r = FrameRun { order, deps, phase, errors: Vec::new() };
        proof {
            assert(r.error_view() =~= Seq::<(NodeId, Seq<char>)>::empty());
        }
        r
    }

    pub fn len(&self) -> (r: usize)
        ensures
            r == self.order_view().len(),
    {
        self.order.len()
    }

    /// The queue position after the last node: the frame's closing task goes there.
    pub fn sentinel_index(&self) -> (r: usize)
        ensures
            r == self.order_view().len(),
    {
        self.order.len()
    }

    pub fn phase_of(&self, j: usize) -> (r: NodePhase)
        requires
            self.wf(),
            j < self.order_view().len(),
        ensures
            r == self.phases()[j as int],
    {
        self.phase[j]
    }

    fn deps_submitted(&self, j: usize) -> (r: bool)
        requires
            self.wf(),
            j < self.order_view().len(),
        ensures
            r == (forall|k: int|
                0 <= k < self.deps_view()[j as int].len() ==> self.phases()[#[trigger] self.deps_view()[j as int][k] as int]
                    == NodePhase::Submitted),
    {
        let d = &self.deps[j];
        proof {
            assert(self.deps_view()[j as int] == d@);
        }
        let mut k: usize = 0;
        while k < d.len()
            invariant
                self.wf(),
                j < self.order_view().len(),
                self.deps_view()[j as int] == d@,
                k <= d@.len(),
                forall|m: int| 0 <= m < k ==> self.phases()[#[trigger] d@[m] as int] == NodePhase::Submitted,
            decreases d@.len() - k,
        {
            let i = d[k];
            proof {
                assert(self.deps_view()[j as int][k as int] < j);
            }
            if self.phase[i] != NodePhase::Submitted {
                return false;
            }
            k += 1;
        }
        true
    }

    /// The first position that may start now.
    pub fn next_ready(&self) -> (r: Option<usize>)
        requires
            self.wf(),
        ensures
            match r {
                Some(j) => self.ready(j as int) && forall|i: int| 0 <= i < j ==> !#[trigger] self.ready(i),
                None => forall|i: int| !#[trigger] self.ready(i),
            },
    {
        let mut j: usize = 0;
        while j < self.phase.len()
            invariant
                self.wf(),
                j <= self.phases().len(),
                forall|i: int| 0 <= i < j ==> !#[trigger] self.ready(i),
            decreases self.phases().len() - j,
        {
            if self.phase[j] == NodePhase::Idle && self.deps_submitted(j) {
                return Some(j);
            }
            j += 1;
        }
        None
    }

    /// Starts position `j`, which must be ready, and returns its node.
    pub fn start(&mut self, j: usize) -> (r: NodeId)
        requires
            old(self).wf(),
            old(self).ready(j as int),
        ensures
            final(self).wf(),
            r == old(self).order_view()[j as int],
            final(self).phases() == old(self).phases().update(j as int, NodePhase::Running),
            final(self).order_view() == old(self).order_view(),
            final(self).deps_view() == old(self).deps_view(),
            final(self).error_view() == old(self).error_view(),
    {
        self.phase.set(j, NodePhase::Running);
        self.order[j]
    }

    /// Records that the node at `j` finished running and handed its command buffer to
    /// the queue at position `j`; an error is kept for the frame's result.
    pub fn finish(&mut self, j: usize, result: Result<(), String>)
        requires
            old(self).wf(),
            j < old(self).order_view().len(),
            old(self).phases()[j as int] == NodePhase::Running,
        ensures
            final(self).wf(),
            final(self).phases() == old(self).phases().update(j as int, NodePhase::Submitted),
            final(self).order_view() == old(self).order_view(),
            final(self).deps_view() == old(self).deps_view(),
            result.is_ok() ==> final(self).error_view() == old(self).error_view(),
            result.is_err() ==> final(self).error_view() == old(self).error_view().push(
                (old(self).order_view()[j as int], result->Err_0@),
            ),
    {
        self.phase.set(j, NodePhase::Submitted);
        match result {
            Ok(()) => {},
            Err(e) => {
                let ghost ev = self.error_view();
                let id = self.order[j];
                self.errors.push((id, e));
                proof {
                    assert(self.error_view() =~= ev.push((id, e@)));
                }
            },
        }
    }

    /// Whether every node of the frame has been submitted.
    pub fn is_complete(&self) -> (r: bool)
        requires
            self.wf(),
        ensures
            r == forall|j: int| 0 <= j < self.phases().len() ==> #[trigger] self.phases()[j] == NodePhase::Submitted,
    {
        let mut j: usize = 0;
        while j < self.phase.len()
            invariant
                j <= self.phases().len(),
                forall|i: int| 0 <= i < j ==> #[trigger] self.phases()[i] == NodePhase::Submitted,
            decreases self.phases().len() - j,
        {
            if self.phase[j] != NodePhase::Submitted {
                return false;
            }
            j += 1;
        }
        true
    }

    /// The errors the frame collected, in the order the nodes finished.
    pub fn errors(&self) -> (r: &Vec<(NodeId, String)>)
        ensures
            r@.map_values(|e: (NodeId, String)| (e.0, e.1@)) == self.error_view(),
    {
        &self.errors
    }
}

/// A node that starts has every node it waits for already submitted, and the nodes it
/// waits for come before it in the order, so their command buffers are queued ahead of it.
pub proof fn lemma_started_after_dependencies(run: FrameRun, j: int, k: int)
    requires
        run.wf(),
        run.ready(j),
        0 <= k < run.deps_view()[j].len(),
    ensures
        run.phases()[run.deps_view()[j][k] as int] == NodePhase::Submitted,
        run.deps_view()[j][k] < j,
{
}

} // verus!
