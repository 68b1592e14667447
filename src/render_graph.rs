//! The render graph: a dependency graph whose first node clears the render target
//! before anything else draws into it.
use vstd::prelude::*;
use crate::graph::{
    ids_contain, ids_distinct, is_topo_order, DependGraph, GraphError, NodeId, NodeLabel, NULL_INDEX,
};
use crate::paths::{acyclic, reaches};
use crate::executor::FrameRun;

verus! {

/// Name of the node that clears the window; it is registered first, at index 0.
pub const CLEAR_WIDNOW_NODE: &'static str = "clear_window";

/// A dependency graph with a clear node kept before every other node.
pub struct RenderGraph {
    imp: DependGraph,
}

impl RenderGraph {
    pub closed spec fn graph(&self) -> DependGraph {
        self.imp
    }

    pub open spec fn wf(&self) -> bool {
        &&& self.graph().wf()
        &&& self.graph().node_count_spec() >= 1
    }

    /// The clear node is still registered.
    pub open spec fn anchor_live(&self) -> bool {
        self.graph().live(0)
    }

    /// The edges left once `k` is detached from the clear node, as a move under a
    /// non-null parent does first.
    pub open spec fn detached_edges(&self, k: NodeId, parent_graph_id: NodeId) -> Set<(int, int)> {
        if parent_graph_id.index != NULL_INDEX {
            self.graph().edge_set().remove((0, k.index as int))
        } else {
            self.graph().edge_set()
        }
    }

    /// The underlying dependency graph.
    pub fn graph_ref(&self) -> (r: &DependGraph)
        ensures
            *r == self.graph(),
    {
        &self.imp
    }

    /// A graph holding only the clear node, marked as a finish node.
    pub fn new() -> (r: RenderGraph)
        ensures
            r.wf(),
            r.anchor_live(),
            r.graph().node_count_spec() == 1,
            r.graph().node(0).name@ == "clear_window"@,
            r.graph().node(0).is_finish,
            r.graph().node(0).can_run,
            !r.graph().node(0).is_sub_graph,
            r.graph().edge_set() == Set::<(int, int)>::empty(),
            r.graph().count_nodes() == 1,
            !r.graph().is_built(),
    {
        let mut imp = DependGraph::new();
        let name = "clear_window".to_owned();
        proof {
            assert(!imp.has_name(name@));
        }
        let added = imp.add_node(name, NodeId::null(), true, false);
        let ghost g1 = imp;
        let fin = imp.set_finish(&NodeLabel::Id(NodeId { index: 0 }), true);
        proof {
            assert(g1.label_is(NodeLabel::Id(NodeId { index: 0 }), 0));
            assert(imp.count_nodes_below(0) == 0);
            assert(imp.count_nodes_below(1) == 1);
        }
        RenderGraph { imp }
    }

    /// Links a freshly added node after the clear node.
    fn link_to_anchor(&mut self, id: NodeId)
        requires
            old(self).wf(),
            old(self).graph().live(id.index as int),
            id.index != 0,
            forall|x: int|
                #![trigger old(self).graph().edge_set().contains((id.index as int, x))]
                !old(self).graph().edge_set().contains((id.index as int, x)),
        ensures
            final(self).wf(),
            final(self).graph().same_nodes(&old(self).graph()),
            old(self).anchor_live() ==> final(self).graph().edge_set() == old(self).graph().edge_set().insert(
                (0, id.index as int),
            ),
            !old(self).anchor_live() ==> final(self).graph() == old(self).graph(),
            old(self).anchor_live() ==> !final(self).graph().is_built() || old(self).graph().is_built(),
            !final(self).graph().is_built() || old(self).graph().is_built(),
    {
        if self.imp.contains(NodeId { index: 0 }) {
            proof {
                self.imp.lemma_no_out_edges(id.index as int, 0);
                assert(self.imp.label_is(NodeLabel::Id(NodeId { index: 0 }), 0));
                assert(self.imp.label_is(NodeLabel::Id(id), id.index as int));
            }
            let r = self.imp.add_depend(&NodeLabel::Id(NodeId { index: 0 }), &NodeLabel::Id(id));
        }
    }

    fn add_node_impl(&mut self, name: String, parent: NodeId, can_run: bool) -> (r: Result<NodeId, GraphError>)
        requires
            old(self).wf(),
            old(self).graph().node_count_spec() + 1 < NULL_INDEX,
        ensures
            final(self).wf(),
            old(self).graph().has_name(name@) ==> r == Err::<NodeId, GraphError>(GraphError::DuplicateName),
            !old(self).graph().has_name(name@) && !old(self).graph().parent_ok(parent) ==> r == Err::<
                NodeId,
                GraphError,
            >(GraphError::NodeNotFound),
            r.is_err() ==> *final(self) == *old(self),
            !old(self).graph().has_name(name@) && old(self).graph().parent_ok(parent) ==> {
                let n = old(self).graph().node_count_spec() as int;
                &&& r == Ok::<NodeId, GraphError>(NodeId { index: n as usize })
                &&& final(self).graph().node_count_spec() == n + 1
                &&& final(self).graph().live(n)
                &&& final(self).graph().node(n).name@ == name@
                &&& !final(self).graph().node(n).is_finish
                &&& !final(self).graph().node(n).is_sub_graph
                &&& final(self).graph().node(n).can_run == can_run
                &&& final(self).graph().node(n).parent == parent
                &&& forall|v: int|
                    0 <= v < n && v != 0 ==> #[trigger] final(self).graph().node(v) == old(self).graph().node(v)
                &&& final(self).graph().node(0).name == old(self).graph().node(0).name
                &&& final(self).graph().node(0).alive == old(self).graph().node(0).alive
                &&& final(self).graph().node(0).is_sub_graph == old(self).graph().node(0).is_sub_graph
                &&& final(self).graph().node(0).can_run == old(self).graph().node(0).can_run
                &&& final(self).graph().node(0).parent == old(self).graph().node(0).parent
                &&& old(self).anchor_live() ==> final(self).graph().edge_set() == old(self).graph().edge_set().insert(
                    (0, n),
                )
                &&& !old(self).anchor_live() ==> final(self).graph().edge_set() == old(self).graph().edge_set()
                &&& old(self).anchor_live() && final(self).graph().count_nodes() > 1 ==> !final(self).graph().node(0).is_finish
                &&& !final(self).graph().is_built()
            },
    {
        let ghost g0 = self.imp;
        let r = self.imp.add_node(name, parent, can_run, false);
        match r {
            Ok(id) => {
                let ghost g1 = self.imp;
                proof {
                    assert forall|x: int|
                        #![trigger g1.edge_set().contains((id.index as int, x))]
                        !g1.edge_set().contains((id.index as int, x)) by {
                        if g1.edge_set().contains((id.index as int, x)) {
                            g0.lemma_edge_endpoints_live(id.index as int, x);
                        }
                    }
                }
                self.link_to_anchor(id);
                let ghost g2 = self.imp;
                if self.imp.contains(NodeId { index: 0 }) && self.imp.count_run_nodes() > 1 {
                    proof {
                        assert(self.imp.label_is(NodeLabel::Id(NodeId { index: 0 }), 0));
                    }
                    let f = self.imp.set_finish(&NodeLabel::Id(NodeId { index: 0 }), false);
                    proof {
                        assert forall|v: int| 0 <= v < g2.node_count_spec() implies #[trigger] self.graph().node(
                            v,
                        ).alive == g2.node(v).alive && self.graph().node(v).is_sub_graph == g2.node(v).is_sub_graph by {
                            if v != 0 {
                                assert(self.imp.node(v) == g2.node(v));
                            }
                        }
                        self.lemma_count_same(g2);
                    }
                }
                Ok(id)
            },
            Err(e) => Err(e),
        }
    }

    /// Registers a node that runs every frame. Once a second node exists, the clear node
    /// runs before it and is no longer a finish node.
    pub fn add_node(&mut self, name: String, parent_graph_id: NodeId) -> (r: Result<NodeId, GraphError>)
        requires
            old(self).wf(),
            old(self).graph().node_count_spec() + 1 < NULL_INDEX,
        ensures
            final(self).wf(),
            old(self).graph().has_name(name@) ==> r == Err::<NodeId, GraphError>(GraphError::DuplicateName),
            !old(self).graph().has_name(name@) && !old(self).graph().parent_ok(parent_graph_id) ==> r == Err::<
                NodeId,
                GraphError,
            >(GraphError::NodeNotFound),
            r.is_err() ==> *final(self) == *old(self),
            !old(self).graph().has_name(name@) && old(self).graph().parent_ok(parent_graph_id) ==> {
                let n = old(self).graph().node_count_spec() as int;
                &&& r == Ok::<NodeId, GraphError>(NodeId { index: n as usize })
                &&& final(self).graph().node_count_spec() == n + 1
                &&& final(self).graph().live(n)
                &&& final(self).graph().node(n).name@ == name@
                &&& !final(self).graph().node(n).is_finish
                &&& !final(self).graph().node(n).is_sub_graph
                &&& final(self).graph().node(n).can_run == true
                &&& final(self).graph().node(n).parent == parent_graph_id
                &&& forall|v: int|
                    0 <= v < n && v != 0 ==> #[trigger] final(self).graph().node(v) == old(self).graph().node(v)
                &&& final(self).graph().node(0).name == old(self).graph().node(0).name
                &&& final(self).graph().node(0).alive == old(self).graph().node(0).alive
                &&& final(self).graph().node(0).is_sub_graph == old(self).graph().node(0).is_sub_graph
                &&& final(self).graph().node(0).can_run == old(self).graph().node(0).can_run
                &&& final(self).graph().node(0).parent == old(self).graph().node(0).parent
                &&& old(self).anchor_live() ==> final(self).graph().edge_set() == old(self).graph().edge_set().insert(
                    (0, n),
                )
                &&& !old(self).anchor_live() ==> final(self).graph().edge_set() == old(self).graph().edge_set()
                &&& old(self).anchor_live() && final(self).graph().count_nodes() > 1 ==> !final(self).graph().node(0).is_finish
                &&& !final(self).graph().is_built()
            },
    {
        self.add_node_impl(name, parent_graph_id, true)
    }

    /// Registers a node that takes part in the graph but does not run.
    pub fn add_node_not_run(&mut self, name: String, parent_graph_id: NodeId) -> (r: Result<
        NodeId,
        GraphError,
    >)
        requires
            old(self).wf(),
            old(self).graph().node_count_spec() + 1 < NULL_INDEX,
        ensures
            final(self).wf(),
            old(self).graph().has_name(name@) ==> r == Err::<NodeId, GraphError>(GraphError::DuplicateName),
            !old(self).graph().has_name(name@) && !old(self).graph().parent_ok(parent_graph_id) ==> r == Err::<
                NodeId,
                GraphError,
            >(GraphError::NodeNotFound),
            r.is_err() ==> *final(self) == *old(self),
            !old(self).graph().has_name(name@) && old(self).graph().parent_ok(parent_graph_id) ==> {
                let n = old(self).graph().node_count_spec() as int;
                &&& r == Ok::<NodeId, GraphError>(NodeId { index: n as usize })
                &&& final(self).graph().node_count_spec() == n + 1
                &&& final(self).graph().live(n)
                &&& final(self).graph().node(n).name@ == name@
                &&& !final(self).graph().node(n).is_finish
                &&& !final(self).graph().node(n).is_sub_graph
                &&& final(self).graph().node(n).can_run == false
                &&& final(self).graph().node(n).parent == parent_graph_id
                &&& forall|v: int|
                    0 <= v < n && v != 0 ==> #[trigger] final(self).graph().node(v) == old(self).graph().node(v)
                &&& final(self).graph().node(0).name == old(self).graph().node(0).name
                &&& final(self).graph().node(0).alive == old(self).graph().node(0).alive
                &&& final(self).graph().node(0).is_sub_graph == old(self).graph().node(0).is_sub_graph
                &&& final(self).graph().node(0).can_run == old(self).graph().node(0).can_run
                &&& final(self).graph().node(0).parent == old(self).graph().node(0).parent
                &&& old(self).anchor_live() ==> final(self).graph().edge_set() == old(self).graph().edge_set().insert(
                    (0, n),
                )
                &&& !old(self).anchor_live() ==> final(self).graph().edge_set() == old(self).graph().edge_set()
                &&& old(self).anchor_live() && final(self).graph().count_nodes() > 1 ==> !final(self).graph().node(0).is_finish
                &&& !final(self).graph().is_built()
            },
    {
        self.add_node_impl(name, parent_graph_id, false)
    }

    /// Registers a sub-graph: a nesting boundary that runs nothing itself.
    pub fn add_sub_graph(&mut self, name: String) -> (r: Result<NodeId, GraphError>)
        requires
            old(self).wf(),
            old(self).graph().node_count_spec() + 1 < NULL_INDEX,
        ensures
            final(self).wf(),
            old(self).graph().has_name(name@) ==> r == Err::<NodeId, GraphError>(GraphError::DuplicateName)
                && *final(self) == *old(self),
            !old(self).graph().has_name(name@) ==> {
                let n = old(self).graph().node_count_spec() as int;
                &&& r == Ok::<NodeId, GraphError>(NodeId { index: n as usize })
                &&& final(self).graph().node_count_spec() == n + 1
                &&& final(self).graph().live(n)
                &&& final(self).graph().node(n).name@ == name@
                &&& final(self).graph().node(n).is_sub_graph
                &&& !final(self).graph().node(n).can_run
                &&& final(self).graph().node(n).parent == NodeId { index: NULL_INDEX }
                &&& forall|v: int| 0 <= v < n ==> #[trigger] final(self).graph().node(v) == old(self).graph().node(v)
                &&& old(self).anchor_live() ==> final(self).graph().edge_set() == old(self).graph().edge_set().insert(
                    (0, n),
                )
                &&& !old(self).anchor_live() ==> final(self).graph().edge_set() == old(self).graph().edge_set()
                &&& !final(self).graph().is_built()
            },
    {
        let ghost g0 = self.imp;
        let r = self.imp.add_node(name, NodeId::null(), false, true);
        match r {
            Ok(id) => {
                let ghost g1 = self.imp;
                proof {
                    assert forall|x: int|
                        #![trigger g1.edge_set().contains((id.index as int, x))]
                        !g1.edge_set().contains((id.index as int, x)) by {
                        if g1.edge_set().contains((id.index as int, x)) {
                            g0.lemma_edge_endpoints_live(id.index as int, x);
                        }
                    }
                }
                self.link_to_anchor(id);
                Ok(id)
            },
            Err(e) => Err(e),
        }
    }

    /// Moves sub-graph `k` under `parent_graph_id`. Giving it a parent first detaches it
    /// from the clear node; the move itself happens only while no edge touches `k`.
    pub fn set_sub_graph_parent(&mut self, k: NodeId, parent_graph_id: NodeId) -> (r: bool)
        requires
            old(self).wf(),
        ensures
            final(self).wf(),
            r == (old(self).graph().live(k.index as int) && old(self).graph().node(
                k.index as int,
            ).is_sub_graph && old(self).graph().parent_ok(parent_graph_id) && !(exists|x: int|
                #![trigger old(self).detached_edges(k, parent_graph_id).contains((k.index as int, x))]
                #![trigger old(self).detached_edges(k, parent_graph_id).contains((x, k.index as int))]
                old(self).detached_edges(k, parent_graph_id).contains((k.index as int, x))
                    || old(self).detached_edges(k, parent_graph_id).contains((x, k.index as int)))),
            !r ==> final(self).graph() == old(self).graph(),
            r ==> final(self).graph().edge_set() == old(self).detached_edges(k, parent_graph_id),
            r ==> final(self).graph().node(k.index as int).parent == parent_graph_id,
            r ==> final(self).graph().node_count_spec() == old(self).graph().node_count_spec(),
            r ==> forall|u: int|
                0 <= u < old(self).graph().node_count_spec() && u != k.index ==> #[trigger] final(self).graph().node(u)
                    == old(self).graph().node(u),
    {
        let ghost g0 = self.imp;
        let skip = !parent_graph_id.is_null();
        if !self.imp.contains(k) {
            return false;
        }
        let is_sub = match self.imp.node_state(k) {
            Some(st) => st.is_sub_graph,
            None => false,
        };
        if !is_sub || !self.imp.check_parent(parent_graph_id) || self.imp.touches_besides(k.index, skip) {
            proof {
                assert(g0.edges_without(k.index as int, skip) == old(self).detached_edges(k, parent_graph_id));
            }
            return false;
        }
        proof {
            assert(g0.edges_without(k.index as int, skip) == old(self).detached_edges(k, parent_graph_id));
        }
        if skip {
            let removed = self.imp.remove_depend(&NodeLabel::Id(NodeId { index: 0 }), &NodeLabel::Id(k));
            proof {
                if !g0.edge_set().contains((0, k.index as int)) {
                    assert(g0.edge_set().remove((0, k.index as int)) =~= g0.edge_set());
                } else {
                    g0.lemma_edge_endpoints_live(0, k.index as int);
                    assert(g0.label_is(NodeLabel::Id(NodeId { index: 0 }), 0));
                    assert(g0.label_is(NodeLabel::Id(k), k.index as int));
                }
            }
        }
        let ghost g1 = self.imp;
        let ghost es1 = old(self).detached_edges(k, parent_graph_id);
        proof {
            assert(g1.edge_set() == es1);
            assert(g1.node(k.index as int) == old(self).graph().node(k.index as int));
            if 0 <= parent_graph_id.index < g1.node_count_spec() {
                assert(g1.node(parent_graph_id.index as int) == old(self).graph().node(parent_graph_id.index as int));
            }
            assert(g1.parent_ok(parent_graph_id) == old(self).graph().parent_ok(parent_graph_id));
        }
        let r = self.imp.set_sub_graph_parent(k, parent_graph_id);
        proof {
            assert forall|u: int|
                0 <= u < old(self).graph().node_count_spec() && u != k.index implies #[trigger] self.graph().node(u)
                    == old(self).graph().node(u) by {
                assert(g1.node(u) == old(self).graph().node(u));
            }
        }
        r
    }

    /// Removes a node and its edges. When only one node is left and the clear node is
    /// still registered, the clear node becomes a finish node again.
    pub fn remove_node(&mut self, label: &NodeLabel) -> (r: Result<NodeId, GraphError>)
        requires
            old(self).wf(),
        ensures
            final(self).wf(),
            !old(self).graph().label_found(*label) ==> r == Err::<NodeId, GraphError>(GraphError::NodeNotFound)
                && *final(self) == *old(self),
            forall|v: int|
                #[trigger] old(self).graph().label_is(*label, v) ==> {
                    &&& r == Ok::<NodeId, GraphError>(NodeId { index: v as usize })
                    &&& final(self).graph().node_count_spec() == old(self).graph().node_count_spec()
                    &&& !final(self).graph().live(v)
                    &&& forall|u: int|
                        0 <= u < old(self).graph().node_count_spec() && u != v && u != 0
                            ==> #[trigger] final(self).graph().node(u) == old(self).graph().node(u)
                    &&& final(self).graph().live(0) == (old(self).graph().live(0) && v != 0)
                    &&& v != 0 ==> final(self).graph().node(0).name == old(self).graph().node(0).name
                        && final(self).graph().node(0).is_sub_graph == old(self).graph().node(0).is_sub_graph
                        && final(self).graph().node(0).can_run == old(self).graph().node(0).can_run
                        && final(self).graph().node(0).parent == old(self).graph().node(0).parent
                    &&& final(self).graph().edge_set() == old(self).graph().edge_set().filter(
                        |e: (int, int)| e.0 != v && e.1 != v,
                    )
                    &&& final(self).anchor_live() && final(self).graph().count_nodes() == 1
                        ==> final(self).graph().node(0).is_finish
                    &&& !final(self).graph().is_built()
                },
    {
        let r = self.imp.remove_node(label);
        match r {
            Ok(id) => {
                let ghost g2 = self.imp;
                if self.imp.contains(NodeId { index: 0 }) && self.imp.count_run_nodes() == 1 {
                    proof {
                        assert(self.imp.label_is(NodeLabel::Id(NodeId { index: 0 }), 0));
                    }
                    let f = self.imp.set_finish(&NodeLabel::Id(NodeId { index: 0 }), true);
                    proof {
                        assert forall|v: int| 0 <= v < g2.node_count_spec() implies #[trigger] self.graph().node(
                            v,
                        ).alive == g2.node(v).alive && self.graph().node(v).is_sub_graph == g2.node(v).is_sub_graph by {
                            if v != 0 {
                                assert(self.imp.node(v) == g2.node(v));
                            }
                        }
                        self.lemma_count_same(g2);
                    }
                }
                Ok(id)
            },
            Err(e) => Err(e),
        }
    }

    /// Adds the ordering edge `before -> after`; refuses one that would close a cycle.
    pub fn add_depend(&mut self, before: &NodeLabel, after: &NodeLabel) -> (r: Result<(), GraphError>)
        requires
            old(self).wf(),
        ensures
            final(self).wf(),
            acyclic(final(self).graph().edge_set()),
            final(self).graph().same_nodes(&old(self).graph()),
            !old(self).graph().label_found(*before) || !old(self).graph().label_found(*after) ==> r == Err::<
                (),
                GraphError,
            >(GraphError::NodeNotFound),
            forall|a: int, b: int|
                #[trigger] old(self).graph().label_is(*before, a) && #[trigger] old(self).graph().label_is(*after, b) ==> {
                    &&& reaches(old(self).graph().edge_set(), b, a) ==> r == Err::<(), GraphError>(
                        GraphError::Cycle,
                    )
                    &&& !reaches(old(self).graph().edge_set(), b, a) ==> {
                        &&& r == Ok::<(), GraphError>(())
                        &&& final(self).graph().edge_set() == old(self).graph().edge_set().insert((a, b))
                        &&& final(self).graph().is_built() == (old(self).graph().is_built()
                            && old(self).graph().edge_set().contains((a, b)))
                    }
                },
            r.is_err() ==> final(self).graph() == old(self).graph(),
    {
        let r = self.imp.add_depend(before, after);
        proof {
            self.imp.lemma_wf_acyclic();
        }
        r
    }

    /// Removes the ordering edge `before -> after`.
    pub fn remove_depend(&mut self, before: &NodeLabel, after: &NodeLabel) -> (r: Result<(), GraphError>)
        requires
            old(self).wf(),
        ensures
            final(self).wf(),
            final(self).graph().same_nodes(&old(self).graph()),
            !old(self).graph().label_found(*before) || !old(self).graph().label_found(*after) ==> r == Err::<
                (),
                GraphError,
            >(GraphError::NodeNotFound),
            forall|a: int, b: int|
                #[trigger] old(self).graph().label_is(*before, a) && #[trigger] old(self).graph().label_is(*after, b) ==> {
                    &&& !old(self).graph().edge_set().contains((a, b)) ==> r == Err::<(), GraphError>(
                        GraphError::EdgeNotFound,
                    )
                    &&& old(self).graph().edge_set().contains((a, b)) ==> {
                        &&& r == Ok::<(), GraphError>(())
                        &&& final(self).graph().edge_set() == old(self).graph().edge_set().remove((a, b))
                        &&& !final(self).graph().is_built()
                    }
                },
            r.is_err() ==> final(self).graph() == old(self).graph(),
    {
        self.imp.remove_depend(before, after)
    }

    /// Marks or unmarks a finish node.
    pub fn set_finish(&mut self, label: &NodeLabel, is_finish: bool) -> (r: Result<(), GraphError>)
        requires
            old(self).wf(),
        ensures
            final(self).wf(),
            !old(self).graph().label_found(*label) ==> r == Err::<(), GraphError>(GraphError::NodeNotFound)
                && final(self).graph() == old(self).graph(),
            forall|v: int|
                #[trigger] old(self).graph().label_is(*label, v) ==> {
                    &&& r == Ok::<(), GraphError>(())
                    &&& final(self).graph().node_count_spec() == old(self).graph().node_count_spec()
                    &&& final(self).graph().node(v).is_finish == is_finish
                    &&& final(self).graph().node(v).alive
                    &&& final(self).graph().node(v).name == old(self).graph().node(v).name
                    &&& final(self).graph().node(v).is_sub_graph == old(self).graph().node(v).is_sub_graph
                    &&& final(self).graph().node(v).can_run == old(self).graph().node(v).can_run
                    &&& final(self).graph().node(v).parent == old(self).graph().node(v).parent
                    &&& forall|u: int|
                        0 <= u < old(self).graph().node_count_spec() && u != v ==> #[trigger] final(self).graph().node(
                            u,
                        ) == old(self).graph().node(u)
                    &&& final(self).graph().edge_set() == old(self).graph().edge_set()
                    &&& !final(self).graph().is_built()
                },
    {
        self.imp.set_finish(label, is_finish)
    }

    /// The predecessors of a node.
    pub fn before_nodes(&self, label: &NodeLabel) -> (r: Result<Vec<NodeId>, GraphError>)
        requires
            self.wf(),
        ensures
            !self.graph().label_found(*label) ==> r == Err::<Vec<NodeId>, GraphError>(GraphError::NodeNotFound),
            forall|v: int|
                #[trigger] self.graph().label_is(*label, v) ==> r.is_ok() && ids_distinct(r->Ok_0@) && forall|x: int|
                    #[trigger] ids_contain(r->Ok_0@, x) <==> self.graph().edge_set().contains((x, v)),
    {
        self.imp.before_nodes(label)
    }

    /// The successors of a node.
    pub fn after_nodes(&self, label: &NodeLabel) -> (r: Result<Vec<NodeId>, GraphError>)
        requires
            self.wf(),
        ensures
            !self.graph().label_found(*label) ==> r == Err::<Vec<NodeId>, GraphError>(GraphError::NodeNotFound),
            forall|v: int|
                #[trigger] self.graph().label_is(*label, v) ==> r.is_ok() && ids_distinct(r->Ok_0@) && forall|x: int|
                    #[trigger] ids_contain(r->Ok_0@, x) <==> self.graph().edge_set().contains((v, x)),
    {
        self.imp.after_nodes(label)
    }

    /// The predecessors of `id`, or `None` when it is not a live node.
    pub fn get_prev_ids(&self, id: NodeId) -> (r: Option<Vec<NodeId>>)
        requires
            self.wf(),
        ensures
            !self.graph().live(id.index as int) ==> r.is_none(),
            self.graph().live(id.index as int) ==> r.is_some() && ids_distinct(r->Some_0@) && forall|x: int|
                #[trigger] ids_contain(r->Some_0@, x) <==> self.graph().edge_set().contains((x, id.index as int)),
    {
        proof {
            assert(self.graph().live(id.index as int) ==> self.graph().label_is(NodeLabel::Id(id), id.index as int));
        }
        match self.imp.before_nodes(&NodeLabel::Id(id)) {
            Ok(v) => Some(v),
            Err(_) => None,
        }
    }

    /// The successors of `id`, or `None` when it is not a live node.
    pub fn get_next_ids(&self, id: NodeId) -> (r: Option<Vec<NodeId>>)
        requires
            self.wf(),
        ensures
            !self.graph().live(id.index as int) ==> r.is_none(),
            self.graph().live(id.index as int) ==> r.is_some() && ids_distinct(r->Some_0@) && forall|x: int|
                #[trigger] ids_contain(r->Some_0@, x) <==> self.graph().edge_set().contains((id.index as int, x)),
    {
        proof {
            assert(self.graph().live(id.index as int) ==> self.graph().label_is(NodeLabel::Id(id), id.index as int));
        }
        match self.imp.after_nodes(&NodeLabel::Id(id)) {
            Ok(v) => Some(v),
            Err(_) => None,
        }
    }

    /// Recomputes the schedule, first making every node without a successor a finish node.
    pub fn build(&mut self) -> (r: Result<(), GraphError>)
        requires
            old(self).wf(),
        ensures
            final(self).wf(),
            r == Ok::<(), GraphError>(()),
            final(self).graph().is_built(),
            final(self).graph().terminals_ok(),
            final(self).graph().edge_set() == old(self).graph().edge_set(),
            final(self).graph().node_count_spec() == old(self).graph().node_count_spec(),
            forall|v: int|
                0 <= v < old(self).graph().node_count_spec() ==> {
                    &&& #[trigger] final(self).graph().node(v).is_finish == (old(self).graph().node(v).is_finish || (old(self).graph().live(v) && !old(self).graph().has_successor(v)))
                    &&& final(self).graph().node(v).alive == old(self).graph().node(v).alive
                    &&& final(self).graph().node(v).name == old(self).graph().node(v).name
                    &&& final(self).graph().node(v).is_sub_graph == old(self).graph().node(v).is_sub_graph
                    &&& final(self).graph().node(v).can_run == old(self).graph().node(v).can_run
                    &&& final(self).graph().node(v).parent == old(self).graph().node(v).parent
                },
            is_topo_order(final(self).graph().edge_set(), final(self).graph().live_set(), final(self).graph().schedule_view()),
            final(self).graph().smallest_first(final(self).graph().schedule_view()),
    {
        self.imp.build()
    }

    /// Rebuilds the schedule only if a mutation made it stale.
    pub fn update(&mut self) -> (r: Result<(), GraphError>)
        requires
            old(self).wf(),
        ensures
            final(self).wf(),
            r == Ok::<(), GraphError>(()),
            final(self).graph().is_built(),
            final(self).graph().terminals_ok(),
            final(self).graph().edge_set() == old(self).graph().edge_set(),
            old(self).graph().is_built() ==> final(self).graph() == old(self).graph(),
            !old(self).graph().is_built() ==> {
                &&& final(self).graph().node_count_spec() == old(self).graph().node_count_spec()
                &&& forall|v: int|
                    0 <= v < old(self).graph().node_count_spec() ==> {
                        &&& #[trigger] final(self).graph().node(v).is_finish == (old(self).graph().node(v).is_finish || (old(self).graph().live(v) && !old(self).graph().has_successor(v)))
                        &&& final(self).graph().node(v).alive == old(self).graph().node(v).alive
                        &&& final(self).graph().node(v).name == old(self).graph().node(v).name
                        &&& final(self).graph().node(v).is_sub_graph == old(self).graph().node(v).is_sub_graph
                        &&& final(self).graph().node(v).can_run == old(self).graph().node(v).can_run
                        &&& final(self).graph().node(v).parent == old(self).graph().node(v).parent
                    }
                &&& is_topo_order(final(self).graph().edge_set(), final(self).graph().live_set(), final(self).graph().schedule_view())
                &&& final(self).graph().smallest_first(final(self).graph().schedule_view())
            },
    {
        self.imp.update()
    }

    /// The cached schedule.
    pub fn schedule_graph(&self) -> (r: &Vec<NodeId>)
        ensures
            r@.map_values(|n: NodeId| n.index as int) == self.graph().schedule_view(),
    {
        self.imp.schedule_graph()
    }

    /// The nodes to run this frame in schedule order; each node's position is the index
    /// at which its command buffer is queued for submission. `None` until `build` or
    /// `update` has run after the last change of topology.
    pub fn run_order(&self) -> (r: Option<Vec<NodeId>>)
        requires
            self.wf(),
        ensures
            !self.graph().is_built() ==> r.is_none(),
            self.graph().is_built() ==> r.is_some() && {
                let p = r->Some_0@;
                &&& forall|v: int| #[trigger] ids_contain(p, v) <==> self.graph().runs(v)
                &&& forall|i: int, j: int|
                    0 <= i < p.len() && 0 <= j < p.len() && i != j ==> #[trigger] p[i].index
                        != #[trigger] p[j].index
                &&& forall|i: int, j: int|
                    0 <= i < p.len() && 0 <= j < p.len() && #[trigger] self.graph().edge_set().contains(
                        (p[i].index as int, p[j].index as int),
                    ) ==> i < j
            },
    {
        self.imp.run_order()
    }

    /// A fresh frame over the run order: each node waits for the earlier nodes that reach
    /// it. `None` until `build` or `update` has run after the last change of topology.
    pub fn frame_run(&self) -> (r: Option<FrameRun>)
        requires
            self.wf(),
        ensures
            !self.graph().is_built() ==> r.is_none(),
            self.graph().is_built() ==> r.is_some() && self.graph().frame_matches(r->Some_0),
    {
        self.imp.frame_run()
    }

    /// The graph in Graphviz's dot language.
    pub fn dump_graphviz(&self) -> (r: String)
        requires
            self.wf(),
        ensures
            r@ == self.graph().dot_text(),
    {
        self.imp.dump_graphviz()
    }

    /// Every well-formed render graph is acyclic.
    pub proof fn lemma_acyclic(&self)
        requires
            self.wf(),
        ensures
            acyclic(self.graph().edge_set()),
    {
        self.imp.lemma_wf_acyclic();
    }

    /// Node counts depend only on liveness and sub-graph marks.
    proof fn lemma_count_same(&self, g: DependGraph)
        requires
            self.graph().node_count_spec() == g.node_count_spec(),
            forall|v: int|
                0 <= v < g.node_count_spec() ==> #[trigger] self.graph().node(v).alive == g.node(v).alive
                    && self.graph().node(v).is_sub_graph == g.node(v).is_sub_graph,
        ensures
            self.graph().count_nodes() == g.count_nodes(),
    {
        assert forall|k: int| 0 <= k <= g.node_count_spec() implies #[trigger] self.graph().count_nodes_below(k)
            == g.count_nodes_below(k) by {
            RenderGraph::lemma_count_below(self.graph(), g, k);
        }
    }

    proof fn lemma_count_below(g1: DependGraph, g2: DependGraph, k: int)
        requires
            g1.node_count_spec() == g2.node_count_spec(),
            0 <= k <= g2.node_count_spec(),
            forall|v: int|
                0 <= v < g2.node_count_spec() ==> #[trigger] g1.node(v).alive == g2.node(v).alive
                    && g1.node(v).is_sub_graph == g2.node(v).is_sub_graph,
        ensures
            g1.count_nodes_below(k) == g2.count_nodes_below(k),
        decreases k,
    {
        if k > 0 {
            RenderGraph::lemma_count_below(g1, g2, k - 1);
            assert(g1.node(k - 1).alive == g2.node(k - 1).alive);
        }
    }
}

} // verus!
