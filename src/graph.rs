//! The dependency graph: nodes, ordering edges, finish marks, sub-graph parents and the
//! cached topological schedule.
use vstd::prelude::*;
use vstd::string::StringExecFns;
use crate::executor::{deps_before, FrameRun, NodePhase};
use crate::paths::{
    acyclic, is_path, lemma_pigeonhole, lemma_acyclic_subset, lemma_add_edge_acyclic, lemma_closed_set_has_cycle,
    lemma_reaches_refl, lemma_reaches_step, reaches,
};

verus! {

/// Handle of a node; `NodeId::null()` stands for "no node".
#[derive(Clone, Copy, Debug, PartialEq, Eq, Hash, Structural)]
pub struct NodeId {
    pub index: usize,
}

pub const NULL_INDEX: usize = usize::MAX;

impl NodeId {
    pub fn new(index: usize) -> (r: NodeId)
        ensures
            r.index == index,
    {
        NodeId { index }
    }

    pub fn null() -> (r: NodeId)
        ensures
            r.index == NULL_INDEX,
    {
        NodeId { index: NULL_INDEX }
    }

    pub fn is_null(&self) -> (r: bool)
        ensures
            r == (self.index == NULL_INDEX),
    {
        self.index == NULL_INDEX
    }
}

/// Errors of graph mutation and lookup.
#[derive(Clone, Copy, Debug, PartialEq, Eq, Structural)]
pub enum GraphError {
    DuplicateName,
    NodeNotFound,
    Cycle,
    EdgeNotFound,
}

/// Names a node by its handle or by its registered name.
#[derive(Clone, Debug)]
pub enum NodeLabel {
    Id(NodeId),
    Name(String),
}

/// What the graph records of one registered node.
#[derive(Clone, Debug)]
pub struct NodeState {
    pub name: String,
    pub alive: bool,
    pub is_finish: bool,
    pub is_sub_graph: bool,
    pub can_run: bool,
    pub parent: NodeId,
}

impl NodeState {
    /// A copy with the given liveness and finish mark.
    pub fn with_flags(&self, alive: bool, is_finish: bool) -> (r: NodeState)
        ensures
            r.name == self.name,
            r.alive == alive,
            r.is_finish == is_finish,
            r.is_sub_graph == self.is_sub_graph,
            r.can_run == self.can_run,
            r.parent == self.parent,
    {
        NodeState {
            name: self.name.clone(),
            alive,
            is_finish,
            is_sub_graph: self.is_sub_graph,
            can_run: self.can_run,
            parent: self.parent,
        }
    }
}

/// A directed acyclic graph of nodes with a cached topological schedule.
pub struct DependGraph {
    nodes: Vec<NodeState>,
    edges: Vec<(usize, usize)>,
    schedule: Vec<NodeId>,
    built: bool,
}

pub open spec fn pair_at(s: Seq<(usize, usize)>, i: int) -> (int, int) {
    (s[i].0 as int, s[i].1 as int)
}

/// The pairs of a list of edges, as a set.
pub open spec fn edges_view(s: Seq<(usize, usize)>) -> Set<(int, int)> {
    Set::new(|e: (int, int)| exists|i: int| 0 <= i < s.len() && #[trigger] pair_at(s, i) == e)
}

proof fn lemma_edges_view_push(s: Seq<(usize, usize)>, x: (usize, usize))
    ensures
        edges_view(s.push(x)) == edges_view(s).insert((x.0 as int, x.1 as int)),
{
    let t = s.push(x);
    assert forall|e: (int, int)| edges_view(t).contains(e) == edges_view(s).insert(
        (x.0 as int, x.1 as int),
    ).contains(e) by {
        if edges_view(t).contains(e) {
            let i = choose|i: int| 0 <= i < t.len() && #[trigger] pair_at(t, i) == e;
            if i < s.len() {
                assert(pair_at(s, i) == e);
            }
        }
        if edges_view(s).contains(e) {
            let i = choose|i: int| 0 <= i < s.len() && #[trigger] pair_at(s, i) == e;
            assert(pair_at(t, i) == e);
        }
        if e == (x.0 as int, x.1 as int) {
            assert(pair_at(t, s.len() as int) == e);
        }
    }
    assert(edges_view(t) =~= edges_view(s).insert((x.0 as int, x.1 as int)));
}

proof fn lemma_edges_view_take(s: Seq<(usize, usize)>, j: int)
    requires
        0 <= j < s.len(),
    ensures
        edges_view(s.take(j + 1)) == edges_view(s.take(j)).insert(pair_at(s, j)),
{
    assert(s.take(j + 1) =~= s.take(j).push(s[j]));
    lemma_edges_view_push(s.take(j), s[j]);
}

/// The edges of `s` without those that touch node `x` (when `by_node`), or without the
/// edge `(x, y)` (otherwise).
fn filter_edges(s: &Vec<(usize, usize)>, x: usize, y: usize, by_node: bool) -> (r: Vec<(usize, usize)>)
    requires
        s@.no_duplicates(),
    ensures
        r@.no_duplicates(),
        by_node ==> edges_view(r@) == edges_view(s@).filter(
            |e: (int, int)| e.0 != x as int && e.1 != x as int,
        ),
        !by_node ==> edges_view(r@) == edges_view(s@).remove((x as int, y as int)),
{
    let ghost keep = |e: (int, int)|
        if by_node {
            e.0 != x as int && e.1 != x as int
        } else {
            e != (x as int, y as int)
        };
    let mut r: Vec<(usize, usize)> = Vec::new();
    let mut j: usize = 0;
    proof {
        assert(edges_view(r@) =~= edges_view(s@.take(0)).filter(keep));
    }
    while j < s.len()
        invariant
            j <= s@.len(),
            keep == (|e: (int, int)|
                if by_node {
                    e.0 != x as int && e.1 != x as int
                } else {
                    e != (x as int, y as int)
                }),
            edges_view(r@) == edges_view(s@.take(j as int)).filter(keep),
            s@.no_duplicates(),
            r@.no_duplicates(),
            forall|k: int| 0 <= k < r@.len() ==> exists|i: int| 0 <= i < j && #[trigger] s@[i] == #[trigger] r@[k],
        decreases s@.len() - j,
    {
        let e = s[j];
        let drop = if by_node { e.0 == x || e.1 == x } else { e.0 == x && e.1 == y };
        proof {
            lemma_edges_view_take(s@, j as int);
            assert(pair_at(s@, j as int) == (e.0 as int, e.1 as int));
        }
        if !drop {
            let ghost r0 = r@;
            r.push(e);
            proof {
                assert forall|a: int, b: int| 0 <= a < r@.len() && 0 <= b < r@.len() && a != b implies #[trigger] r@[a] != #[trigger] r@[b] by {
                    if a < r0.len() && b < r0.len() {
                        assert(r@[a] == r0[a] && r@[b] == r0[b]);
                    } else if a < r0.len() {
                        let i = choose|i: int| 0 <= i < j && #[trigger] s@[i] == r0[a];
                        assert(r@[a] == r0[a]);
                    } else {
                        let i = choose|i: int| 0 <= i < j && #[trigger] s@[i] == r0[b];
                        assert(r@[b] == r0[b]);
                    }
                }
                assert forall|k: int| 0 <= k < r@.len() implies exists|i: int| 0 <= i < j + 1 && #[trigger] s@[i] == #[trigger] r@[k] by {
                    if k < r0.len() {
                        let i = choose|i: int| 0 <= i < j && #[trigger] s@[i] == r0[k];
                        assert(r@[k] == r0[k]);
                    } else {
                        assert(s@[j as int] == r@[k]);
                    }
                }
                lemma_edges_view_push(r0, e);
                assert(edges_view(r@) =~= edges_view(s@.take(j + 1)).filter(keep));
            }
        } else {
            proof {
                assert(edges_view(r@) =~= edges_view(s@.take(j + 1)).filter(keep));
            }
        }
        j += 1;
    }
    proof {
        assert(s@.take(s@.len() as int) =~= s@);
        if by_node {
            assert(edges_view(r@) =~= edges_view(s@).filter(
                |e: (int, int)| e.0 != x as int && e.1 != x as int,
            ));
        } else {
            assert(edges_view(r@) =~= edges_view(s@).remove((x as int, y as int)));
        }
    }
    r
}

/// Some handle in `r` has index `x`.
pub open spec fn ids_contain(r: Seq<NodeId>, x: int) -> bool {
    exists|i: int| 0 <= i < r.len() && #[trigger] r[i].index == x
}

/// No index occurs twice in `r`.
pub open spec fn ids_distinct(r: Seq<NodeId>) -> bool {
    forall|i: int, j: int| 0 <= i < r.len() && 0 <= j < r.len() && i != j ==> #[trigger] r[i].index != #[trigger] r[j].index
}

/// Whether every node of `successors` occurs in `built`: a node's build output has then
/// been consumed and the node may release its build-time scratch data.
pub fn all_built(successors: &Vec<NodeId>, built: &Vec<NodeId>) -> (r: bool)
    ensures
        r == forall|i: int| 0 <= i < successors@.len() ==> #[trigger] ids_contain(built@, successors@[i].index as int),
{
    let mut i: usize = 0;
    while i < successors.len()
        invariant
            i <= successors@.len(),
            forall|k: int| 0 <= k < i ==> #[trigger] ids_contain(built@, successors@[k].index as int),
        decreases successors@.len() - i,
    {
        let s = successors[i].index;
        let mut j: usize = 0;
        let mut found = false;
        while j < built.len() && !found
            invariant
                j <= built@.len(),
                found ==> ids_contain(built@, s as int),
                !found ==> forall|k: int| 0 <= k < j ==> #[trigger] built@[k].index != s,
            decreases built@.len() - j,
        {
            if built[j].index == s {
                found = true;
            }
            j += 1;
        }
        if !found {
            proof {
                assert(!ids_contain(built@, successors@[i as int].index as int));
            }
            return false;
        }
        i += 1;
    }
    true
}

/// Every node of `s` is live, every live node occurs exactly once, and each edge goes
/// forward in `s`.
pub open spec fn is_topo_order(es: Set<(int, int)>, live: Set<int>, s: Seq<int>) -> bool {
    &&& forall|i: int| 0 <= i < s.len() ==> #[trigger] live.contains(s[i])
    &&& forall|v: int| #[trigger] live.contains(v) ==> s.contains(v)
    &&& s.no_duplicates()
    &&& forall|i: int, j: int|
        0 <= i < s.len() && 0 <= j < s.len() && #[trigger] es.contains((s[i], s[j])) ==> i < j
}

impl DependGraph {
    pub closed spec fn node_count_spec(&self) -> nat {
        self.nodes@.len()
    }

    pub closed spec fn node(&self, v: int) -> NodeState {
        self.nodes@[v]
    }

    pub open spec fn live(&self, v: int) -> bool {
        0 <= v < self.node_count_spec() && self.node(v).alive
    }

    pub closed spec fn edge_at(&self, i: int) -> (int, int) {
        pair_at(self.edges@, i)
    }

    /// The set of edges `(before, after)`.
    pub closed spec fn edge_set(&self) -> Set<(int, int)> {
        edges_view(self.edges@)
    }

    pub closed spec fn schedule_view(&self) -> Seq<int> {
        self.schedule@.map_values(|n: NodeId| n.index as int)
    }

    pub closed spec fn is_built(&self) -> bool {
        self.built
    }

    /// The live nodes.
    pub open spec fn live_set(&self) -> Set<int> {
        Set::new(|v: int| self.live(v))
    }

    /// Some live node is registered under `name`.
    pub open spec fn has_name(&self, name: Seq<char>) -> bool {
        exists|v: int| #[trigger] self.live(v) && self.node(v).name@ == name
    }

    pub open spec fn label_is(&self, label: NodeLabel, v: int) -> bool {
        self.live(v) && match label {
            NodeLabel::Id(id) => id.index as int == v,
            NodeLabel::Name(s) => self.node(v).name@ == s@,
        }
    }

    /// Both graphs hold the same nodes with the same records.
    pub open spec fn same_nodes(&self, o: &DependGraph) -> bool {
        &&& self.node_count_spec() == o.node_count_spec()
        &&& forall|v: int| 0 <= v < self.node_count_spec() ==> #[trigger] self.node(v) == o.node(v)
    }

    pub open spec fn label_found(&self, label: NodeLabel) -> bool {
        exists|v: int| #[trigger] self.label_is(label, v)
    }

    /// Every live node that is not a finish node has an outgoing edge.
    pub open spec fn terminals_ok(&self) -> bool {
        forall|v: int|
            #[trigger] self.live(v) && !self.node(v).is_finish ==> exists|x: int| self.edge_set().contains((v, x))
    }

    pub closed spec fn wf(&self) -> bool {
        &&& self.nodes@.len() < NULL_INDEX
        &&& forall|i: int|
            #![trigger self.edge_at(i)]
            0 <= i < self.edges@.len() ==> self.live(self.edge_at(i).0) && self.live(self.edge_at(i).1)
        &&& forall|u: int, v: int|
            #[trigger] self.live(u) && #[trigger] self.live(v) && u != v ==> self.nodes@[u].name@
                != self.nodes@[v].name@
        &&& acyclic(self.edge_set())
        &&& self.built ==> is_topo_order(self.edge_set(), self.live_set(), self.schedule_view())
        &&& self.built ==> self.terminals_ok()
        &&& self.edges@.no_duplicates()
    }

    pub proof fn lemma_edge_endpoints_live(&self, a: int, b: int)
        requires
            self.wf(),
            self.edge_set().contains((a, b)),
        ensures
            self.live(a),
            self.live(b),
    {
        let i = choose|i: int| 0 <= i < self.edges@.len() && #[trigger] pair_at(self.edges@, i) == (a, b);
        assert(self.live(self.edge_at(i).0));
    }

    proof fn lemma_same_edges(g1: DependGraph, g2: DependGraph)
        requires
            g1.edges@ == g2.edges@,
        ensures
            g1.edge_set() == g2.edge_set(),
    {
    }

    /// An empty graph.
    pub fn new() -> (r: DependGraph)
        ensures
            r.wf(),
            r.node_count_spec() == 0,
            r.edge_set() == Set::<(int, int)>::empty(),
            !r.is_built(),
    {
        let r = DependGraph { nodes: Vec::new(), edges: Vec::new(), schedule: Vec::new(), built: false };
        assert(r.edge_set() =~= Set::<(int, int)>::empty());
        assert forall|p: Seq<int>| is_path(r.edge_set(), p) && p.len() > 1 implies p[0] != p.last() by {
            assert(r.edge_set().contains((p[0], p[0int + 1])));
        }
        r
    }

    pub fn len(&self) -> (r: usize)
        ensures
            r == self.node_count_spec(),
    {
        self.nodes.len()
    }

    pub fn is_built_exec(&self) -> (r: bool)
        ensures
            r == self.is_built(),
    {
        self.built
    }

    /// Whether `id` is a live node.
    pub fn contains(&self, id: NodeId) -> (r: bool)
        ensures
            r == self.live(id.index as int),
    {
        id.index < self.nodes.len() && self.nodes[id.index].alive
    }

    /// The state recorded for a live node.
    pub fn node_state(&self, id: NodeId) -> (r: Option<&NodeState>)
        ensures
            self.live(id.index as int) ==> r == Some(&self.node(id.index as int)),
            !self.live(id.index as int) ==> r.is_none(),
    {
        if id.index < self.nodes.len() && self.nodes[id.index].alive {
            Some(&self.nodes[id.index])
        } else {
            None
        }
    }

    /// The live node registered under `name`.
    pub fn find_name(&self, name: &String) -> (r: Option<usize>)
        requires
            self.wf(),
        ensures
            match r {
                Some(v) => self.live(v as int) && self.node(v as int).name@ == name@,
                None => !self.has_name(name@),
            },
    {
        let mut i: usize = 0;
        while i < self.nodes.len()
            invariant
                i <= self.nodes@.len(),
                forall|v: int| 0 <= v < i ==> !(#[trigger] self.live(v) && self.nodes@[v].name@ == name@),
            decreases self.nodes@.len() - i,
        {
            if self.nodes[i].alive && self.nodes[i].name == *name {
                return Some(i);
            }
            i += 1;
        }
        None
    }

    /// A parent is acceptable when it is null or a live sub-graph.
    pub open spec fn parent_ok(&self, parent: NodeId) -> bool {
        parent.index == NULL_INDEX || (self.live(parent.index as int) && self.node(
            parent.index as int,
        ).is_sub_graph)
    }

    pub fn check_parent(&self, parent: NodeId) -> (r: bool)
        ensures
            r == self.parent_ok(parent),
    {
        parent.index == NULL_INDEX || (parent.index < self.nodes.len()
            && self.nodes[parent.index].alive && self.nodes[parent.index].is_sub_graph)
    }

    /// Registers a node named `name` under `parent`. The new node has no edges.
    pub fn add_node(
        &mut self,
        name: String,
        parent: NodeId,
        can_run: bool,
        is_sub_graph: bool,
    ) -> (r: Result<NodeId, GraphError>)
        requires
            old(self).wf(),
            old(self).node_count_spec() + 1 < NULL_INDEX,
        ensures
            final(self).wf(),
            old(self).has_name(name@) ==> r == Err::<NodeId, GraphError>(GraphError::DuplicateName),
            !old(self).has_name(name@) && !old(self).parent_ok(parent) ==> r == Err::<NodeId, GraphError>(
                GraphError::NodeNotFound,
            ),
            r.is_err() ==> *final(self) == *old(self),
            !old(self).has_name(name@) && old(self).parent_ok(parent) ==> {
                &&& r == Ok::<NodeId, GraphError>(NodeId { index: old(self).node_count_spec() as usize })
                &&& final(self).node_count_spec() == old(self).node_count_spec() + 1
                &&& final(self).live(old(self).node_count_spec() as int)
                &&& final(self).node(old(self).node_count_spec() as int).name@ == name@
                &&& final(self).node(old(self).node_count_spec() as int).is_finish == false
                &&& final(self).node(old(self).node_count_spec() as int).is_sub_graph == is_sub_graph
                &&& final(self).node(old(self).node_count_spec() as int).can_run == can_run
                &&& final(self).node(old(self).node_count_spec() as int).parent == parent
                &&& forall|v: int|
                    0 <= v < old(self).node_count_spec() ==> #[trigger] final(self).node(v) == old(self).node(v)
                &&& final(self).edge_set() == old(self).edge_set()
                &&& !final(self).is_built()
            },
    {
        if self.find_name(&name).is_some() {
            return Err(GraphError::DuplicateName);
        }
        if !self.check_parent(parent) {
            return Err(GraphError::NodeNotFound);
        }
        let id = NodeId { index: self.nodes.len() };
        let ghost old_self = *self;
        self.nodes.push(
            NodeState { name, alive: true, is_finish: false, is_sub_graph, can_run, parent },
        );
        self.built = false;
        proof {
            DependGraph::lemma_same_edges(*self, old_self);
            assert forall|v: int| 0 <= v < old_self.nodes@.len() implies #[trigger] self.live(v)
                == old_self.live(v) by {
                assert(self.nodes@[v] == old_self.nodes@[v]);
            }
            assert forall|i: int| 0 <= i < self.edges@.len() implies self.live(
                #[trigger] self.edge_at(i).0,
            ) && self.live(self.edge_at(i).1) by {
                assert(old_self.live(old_self.edge_at(i).0));
                assert(old_self.live(old_self.edge_at(i).1));
            }
            assert forall|u: int, v: int|
                #[trigger] self.live(u) && #[trigger] self.live(v) && u != v implies self.nodes@[u].name@
                != self.nodes@[v].name@ by {
                let n = old_self.nodes@.len() as int;
                if u == n {
                    assert(old_self.live(v));
                    assert(!(old_self.live(v) && old_self.nodes@[v].name@ == name@));
                } else if v == n {
                    assert(old_self.live(u));
                    assert(!(old_self.live(u) && old_self.nodes@[u].name@ == name@));
                } else {
                    assert(old_self.live(u) && old_self.live(v));
                }
            }
        }
        Ok(id)
    }

    /// Whether `to` can be reached from `from` along the edges (depth-first search).
    pub fn reaches_exec(&self, from: usize, to: usize) -> (r: bool)
        requires
            self.wf(),
            self.live(from as int),
            self.live(to as int),
        ensures
            r == reaches(self.edge_set(), from as int, to as int),
    {
        let ghost es = self.edge_set();
        if from == to {
            proof {
                lemma_reaches_refl(es, from as int);
            }
            return true;
        }
        let n = self.nodes.len();
        let mut visited: Vec<bool> = Vec::new();
        let mut k: usize = 0;
        while k < n
            invariant
                k <= n,
                n == self.nodes@.len(),
                visited@.len() == k,
                forall|v: int| 0 <= v < k ==> !#[trigger] visited@[v],
            decreases n - k,
        {
            visited.push(false);
            k += 1;
        }
        visited.set(from, true);
        let mut stack: Vec<usize> = Vec::new();
        stack.push(from);
        let ghost mut vs: Set<int> = set![from as int];
        proof {
            lemma_reaches_refl(es, from as int);
            vstd::set_lib::lemma_int_range(0, n as int);
            assert(vs =~= Set::new(|v: int| 0 <= v < n && visited@[v]));
            assert(stack@[0] == from);
            assert(stack@.contains(from));
        }
        while stack.len() > 0
            invariant
                self.wf(),
                es == self.edge_set(),
                n == self.nodes@.len(),
                visited@.len() == n,
                0 <= from < n,
                0 <= to < n,
                from != to,
                visited@[from as int],
                !visited@[to as int],
                vs == Set::new(|v: int| 0 <= v < n && visited@[v]),
                vs.finite(),
                vs.len() <= n,
                forall|v: int| 0 <= v < n && #[trigger] visited@[v] ==> reaches(es, from as int, v),
                forall|j: int|
                    0 <= j < stack@.len() ==> 0 <= #[trigger] stack@[j] < n && visited@[stack@[j] as int],
                stack@.no_duplicates(),
                forall|u: int, w: int|
                    #[trigger] es.contains((u, w)) && 0 <= u < n && visited@[u] && !stack@.contains(
                        u as usize,
                    ) ==> 0 <= w < n && visited@[w],
            decreases 2 * (n - vs.len()) + stack@.len(),
        {
            let ghost pre = stack@;
            let ghost d0 = 2 * (n - vs.len()) + stack@.len();
            let v = stack.pop().unwrap();
            proof {
                assert(stack@ =~= pre.drop_last());
                assert(v == pre[pre.len() - 1]);
                assert(!stack@.contains(v)) by {
                    if stack@.contains(v) {
                        let j = choose|j: int| 0 <= j < stack@.len() && stack@[j] == v;
                        assert(pre[j] == pre[pre.len() - 1]);
                    }
                }
                assert forall|u: usize| u != v && #[trigger] pre.contains(u) implies stack@.contains(u) by {
                    let j = choose|j: int| 0 <= j < pre.len() && pre[j] == u;
                    assert(stack@[j] == u);
                }
            }
            let mut j: usize = 0;
            while j < self.edges.len()
                invariant
                    self.wf(),
                    es == self.edge_set(),
                    n == self.nodes@.len(),
                    visited@.len() == n,
                    0 <= v < n,
                    visited@[v as int],
                    0 <= from < n,
                    0 <= to < n,
                    from != to,
                    visited@[from as int],
                    !visited@[to as int],
                    j <= self.edges@.len(),
                    vs == Set::new(|x: int| 0 <= x < n && visited@[x]),
                    vs.finite(),
                    vs.len() <= n,
                    forall|x: int| 0 <= x < n && #[trigger] visited@[x] ==> reaches(es, from as int, x),
                    forall|i: int|
                        0 <= i < stack@.len() ==> 0 <= #[trigger] stack@[i] < n && visited@[stack@[i] as int],
                    stack@.no_duplicates(),
                    !stack@.contains(v),
                    2 * (n - vs.len()) + stack@.len() < d0,
                    forall|i: int|
                        #![trigger self.edge_at(i)]
                        0 <= i < j && self.edge_at(i).0 == v ==> visited@[self.edge_at(i).1],
                    forall|u: int, w: int|
                        #[trigger] es.contains((u, w)) && 0 <= u < n && visited@[u] && u != v
                            && !stack@.contains(u as usize) ==> 0 <= w < n && visited@[w],
                decreases self.edges@.len() - j,
            {
                let (a, b) = self.edges[j];
                proof {
                    assert(self.edge_at(j as int) == (a as int, b as int));
                    assert(self.live(self.edge_at(j as int).1));
                }
                if a == v && !visited[b] {
                    proof {
                        assert(self.edge_at(j as int) == (a as int, b as int));
                        assert(es.contains((a as int, b as int)));
                        self.lemma_edge_endpoints_live(a as int, b as int);
                        lemma_reaches_step(es, from as int, v as int, b as int);
                    }
                    if b == to {
                        return true;
                    }
                    let ghost st0 = stack@;
                    let ghost vis0 = visited@;
                    visited.set(b, true);
                    stack.push(b);
                    proof {
                        assert(stack@[st0.len() as int] == b);
                        assert forall|u: usize| #[trigger] st0.contains(u) implies stack@.contains(u) by {
                            let k = choose|k: int| 0 <= k < st0.len() && st0[k] == u;
                            assert(stack@[k] == u);
                        }
                        assert forall|u: int, w: int|
                            #[trigger] es.contains((u, w)) && 0 <= u < n && visited@[u] && u != v
                                && !stack@.contains(u as usize) implies 0 <= w < n && visited@[w] by {
                            assert(u != b);
                            assert(vis0[u]);
                            assert(!st0.contains(u as usize));
                        }
                        let nvs = Set::new(|x: int| 0 <= x < n && visited@[x]);
                        assert(nvs =~= vs.insert(b as int));
                        vs = nvs;
                        vstd::set_lib::lemma_int_range(0, n as int);
                        assert(vs.subset_of(vstd::set_lib::set_int_range(0, n as int)));
                        vstd::set_lib::lemma_len_subset(vs, vstd::set_lib::set_int_range(0, n as int));
                    }
                }
                proof {
                    if a == v {
                        assert(visited@[b as int]);
                    }
                }
                j += 1;
            }
            proof {
                assert forall|w: int| #[trigger] es.contains((v as int, w)) implies 0 <= w < n
                    && visited@[w] by {
                    let i = choose|i: int| 0 <= i < self.edges@.len() && #[trigger] pair_at(self.edges@, i) == (v as int, w);
                    assert(self.edge_at(i).0 == v);
                    self.lemma_edge_endpoints_live(v as int, w);
                }
            }
        }
        proof {
            crate::paths::lemma_closed_unreachable(es, vs, from as int, to as int);
        }
        false
    }

    /// Whether the edge `(a, b)` is present.
    fn has_edge(&self, a: usize, b: usize) -> (r: bool)
        ensures
            r == self.edge_set().contains((a as int, b as int)),
    {
        let mut j: usize = 0;
        while j < self.edges.len()
            invariant
                j <= self.edges@.len(),
                forall|i: int| 0 <= i < j ==> #[trigger] pair_at(self.edges@, i) != (a as int, b as int),
            decreases self.edges@.len() - j,
        {
            if self.edges[j].0 == a && self.edges[j].1 == b {
                proof {
                    assert(pair_at(self.edges@, j as int) == (a as int, b as int));
                }
                return true;
            }
            j += 1;
        }
        false
    }

    proof fn lemma_wf_from_edge_set(&self)
        requires
            self.nodes@.len() < NULL_INDEX,
            forall|a: int, b: int|
                #[trigger] self.edge_set().contains((a, b)) ==> self.live(a) && self.live(b),
        ensures
            forall|i: int|
                #![trigger self.edge_at(i)]
                0 <= i < self.edges@.len() ==> self.live(self.edge_at(i).0) && self.live(
                    self.edge_at(i).1,
                ),
    {
        assert forall|i: int| #![trigger self.edge_at(i)] 0 <= i < self.edges@.len() implies self.live(
            self.edge_at(i).0,
        ) && self.live(self.edge_at(i).1) by {
            let e = self.edge_at(i);
            assert(pair_at(self.edges@, i) == e);
            assert(self.edge_set().contains((e.0, e.1)));
        }
    }

    /// Adds the ordering edge `before -> after`.
    pub fn add_depend(&mut self, before: &NodeLabel, after: &NodeLabel) -> (r: Result<(), GraphError>)
        requires
            old(self).wf(),
        ensures
            final(self).wf(),
            final(self).same_nodes(old(self)),
            !old(self).label_found(*before) || !old(self).label_found(*after) ==> r == Err::<
                (),
                GraphError,
            >(GraphError::NodeNotFound),
            forall|a: int, b: int|
                #[trigger] old(self).label_is(*before, a) && #[trigger] old(self).label_is(*after, b) ==> {
                    &&& reaches(old(self).edge_set(), b, a) ==> r == Err::<(), GraphError>(
                        GraphError::Cycle,
                    )
                    &&& !reaches(old(self).edge_set(), b, a) ==> {
                        &&& r == Ok::<(), GraphError>(())
                        &&& final(self).edge_set() == old(self).edge_set().insert((a, b))
                        &&& final(self).is_built() == (old(self).is_built() && old(self).edge_set().contains((a, b)))
                    }
                },
            r.is_err() ==> *final(self) == *old(self),
    {
        let a = match self.resolve(before) {
            Some(a) => a,
            None => return Err(GraphError::NodeNotFound),
        };
        let b = match self.resolve(after) {
            Some(b) => b,
            None => return Err(GraphError::NodeNotFound),
        };
        if self.reaches_exec(b, a) {
            return Err(GraphError::Cycle);
        }
        if self.has_edge(a, b) {
            proof {
                assert(self.edge_set().insert((a as int, b as int)) =~= self.edge_set());
            }
            return Ok(());
        }
        let ghost old_self = *self;
        proof {
            assert forall|i: int| 0 <= i < old_self.edges@.len() implies old_self.edges@[i] != (a, b) by {
                if old_self.edges@[i] == (a, b) {
                    assert(pair_at(old_self.edges@, i) == (a as int, b as int));
                }
            }
        }
        self.edges.push((a, b));
        self.built = false;
        proof {
            assert forall|i: int, j: int|
                0 <= i < self.edges@.len() && 0 <= j < self.edges@.len() && i != j implies self.edges@[i]
                != self.edges@[j] by {
                if i < old_self.edges@.len() && j < old_self.edges@.len() {
                    assert(self.edges@[i] == old_self.edges@[i] && self.edges@[j] == old_self.edges@[j]);
                } else if i < old_self.edges@.len() {
                    assert(self.edges@[i] == old_self.edges@[i]);
                } else {
                    assert(self.edges@[j] == old_self.edges@[j]);
                }
            }
            lemma_edges_view_push(old_self.edges@, (a, b));
            lemma_add_edge_acyclic(old_self.edge_set(), a as int, b as int);
            assert forall|x: int, y: int| #[trigger] self.edge_set().contains((x, y)) implies self.live(x)
                && self.live(y) by {
                if (x, y) != (a as int, b as int) {
                    old_self.lemma_edge_endpoints_live(x, y);
                }
            }
            self.lemma_wf_from_edge_set();
            assert forall|x: int, y: int|
                #[trigger] self.live(x) && #[trigger] self.live(y) && x != y implies self.nodes@[x].name@
                != self.nodes@[y].name@ by {
                assert(old_self.live(x) && old_self.live(y));
            }
        }
        Ok(())
    }

    /// Removes the ordering edge `before -> after`.
    pub fn remove_depend(&mut self, before: &NodeLabel, after: &NodeLabel) -> (r: Result<(), GraphError>)
        requires
            old(self).wf(),
        ensures
            final(self).wf(),
            final(self).same_nodes(old(self)),
            !old(self).label_found(*before) || !old(self).label_found(*after) ==> r == Err::<
                (),
                GraphError,
            >(GraphError::NodeNotFound),
            forall|a: int, b: int|
                #[trigger] old(self).label_is(*before, a) && #[trigger] old(self).label_is(*after, b) ==> {
                    &&& !old(self).edge_set().contains((a, b)) ==> r == Err::<(), GraphError>(
                        GraphError::EdgeNotFound,
                    )
                    &&& old(self).edge_set().contains((a, b)) ==> {
                        &&& r == Ok::<(), GraphError>(())
                        &&& final(self).edge_set() == old(self).edge_set().remove((a, b))
                        &&& !final(self).is_built()
                    }
                },
            r.is_err() ==> *final(self) == *old(self),
    {
        let a = match self.resolve(before) {
            Some(a) => a,
            None => return Err(GraphError::NodeNotFound),
        };
        let b = match self.resolve(after) {
            Some(b) => b,
            None => return Err(GraphError::NodeNotFound),
        };
        if !self.has_edge(a, b) {
            return Err(GraphError::EdgeNotFound);
        }
        let ghost old_self = *self;
        let kept = filter_edges(&self.edges, a, b, false);
        self.edges = kept;
        self.built = false;
        proof {
            assert(self.edge_set().subset_of(old_self.edge_set()));
            lemma_acyclic_subset(self.edge_set(), old_self.edge_set());
            assert forall|x: int, y: int| #[trigger] self.edge_set().contains((x, y)) implies self.live(x)
                && self.live(y) by {
                old_self.lemma_edge_endpoints_live(x, y);
            }
            self.lemma_wf_from_edge_set();
            assert forall|x: int, y: int|
                #[trigger] self.live(x) && #[trigger] self.live(y) && x != y implies self.nodes@[x].name@
                != self.nodes@[y].name@ by {
                assert(old_self.live(x) && old_self.live(y));
            }
        }
        Ok(())
    }

    /// Removes a node and every edge that touches it.
    pub fn remove_node(&mut self, label: &NodeLabel) -> (r: Result<NodeId, GraphError>)
        requires
            old(self).wf(),
        ensures
            final(self).wf(),
            !old(self).label_found(*label) ==> r == Err::<NodeId, GraphError>(GraphError::NodeNotFound)
                && *final(self) == *old(self),
            forall|v: int|
                #[trigger] old(self).label_is(*label, v) ==> {
                    &&& r == Ok::<NodeId, GraphError>(NodeId { index: v as usize })
                    &&& final(self).node_count_spec() == old(self).node_count_spec()
                    &&& !final(self).live(v)
                    &&& forall|u: int|
                        0 <= u < old(self).node_count_spec() && u != v ==> #[trigger] final(self).node(
                            u,
                        ) == old(self).node(u)
                    &&& final(self).edge_set() == old(self).edge_set().filter(
                        |e: (int, int)| e.0 != v && e.1 != v,
                    )
                    &&& !final(self).is_built()
                },
    {
        let v = match self.resolve(label) {
            Some(v) => v,
            None => return Err(GraphError::NodeNotFound),
        };
        let ghost old_self = *self;
        let kept = filter_edges(&self.edges, v, v, true);
        self.edges = kept;
        let st = self.nodes[v].with_flags(false, self.nodes[v].is_finish);
        self.nodes.set(v, st);
        self.built = false;
        proof {
            assert(self.edge_set() =~= old_self.edge_set().filter(
                |e: (int, int)| e.0 != v as int && e.1 != v as int,
            ));
            lemma_acyclic_subset(self.edge_set(), old_self.edge_set());
            assert forall|u: int| 0 <= u < old_self.nodes@.len() && u != v implies #[trigger] self.live(
                u,
            ) == old_self.live(u) by {
                assert(self.nodes@[u] == old_self.nodes@[u]);
            }
            assert forall|x: int, y: int| #[trigger] self.edge_set().contains((x, y)) implies self.live(x)
                && self.live(y) by {
                old_self.lemma_edge_endpoints_live(x, y);
            }
            self.lemma_wf_from_edge_set();
            assert forall|x: int, y: int|
                #[trigger] self.live(x) && #[trigger] self.live(y) && x != y implies self.nodes@[x].name@
                != self.nodes@[y].name@ by {
                assert(old_self.live(x) && old_self.live(y));
            }
            assert forall|u: int|
                0 <= u < old_self.node_count_spec() && u != v implies #[trigger] self.node(u) == old_self.node(u) by {
            }
        }
        Ok(NodeId { index: v })
    }

    /// Marks or unmarks a node as a finish node.
    pub fn set_finish(&mut self, label: &NodeLabel, is_finish: bool) -> (r: Result<(), GraphError>)
        requires
            old(self).wf(),
        ensures
            final(self).wf(),
            !old(self).label_found(*label) ==> r == Err::<(), GraphError>(GraphError::NodeNotFound)
                && *final(self) == *old(self),
            forall|v: int|
                #[trigger] old(self).label_is(*label, v) ==> {
                    &&& r == Ok::<(), GraphError>(())
                    &&& final(self).node_count_spec() == old(self).node_count_spec()
                    &&& final(self).node(v).is_finish == is_finish
                    &&& final(self).node(v).alive
                    &&& final(self).node(v).name == old(self).node(v).name
                    &&& final(self).node(v).is_sub_graph == old(self).node(v).is_sub_graph
                    &&& final(self).node(v).can_run == old(self).node(v).can_run
                    &&& final(self).node(v).parent == old(self).node(v).parent
                    &&& forall|u: int|
                        0 <= u < old(self).node_count_spec() && u != v ==> #[trigger] final(self).node(
                            u,
                        ) == old(self).node(u)
                    &&& final(self).edge_set() == old(self).edge_set()
                    &&& !final(self).is_built()
                },
    {
        let v = match self.resolve(label) {
            Some(v) => v,
            None => return Err(GraphError::NodeNotFound),
        };
        let ghost old_self = *self;
        let st = self.nodes[v].with_flags(true, is_finish);
        self.nodes.set(v, st);
        self.built = false;
        proof {
            assert(self.nodes@[v as int].name == old_self.nodes@[v as int].name);
            DependGraph::lemma_same_edges(*self, old_self);
            assert forall|u: int| 0 <= u < old_self.nodes@.len() implies #[trigger] self.live(u)
                == old_self.live(u) by {
                if u != v {
                    assert(self.nodes@[u] == old_self.nodes@[u]);
                }
            }
            assert forall|x: int, y: int|
                #[trigger] self.live(x) && #[trigger] self.live(y) && x != y implies self.nodes@[x].name@
                != self.nodes@[y].name@ by {
                assert(old_self.live(x) && old_self.live(y));
            }
            assert(self.schedule_view() == old_self.schedule_view());
            assert(self.live_set() =~= old_self.live_set());
            assert forall|x: int, y: int| #[trigger] self.edge_set().contains((x, y)) implies self.live(x)
                && self.live(y) by {
                old_self.lemma_edge_endpoints_live(x, y);
            }
            self.lemma_wf_from_edge_set();
        }
        Ok(())
    }

    /// `v` is live, not yet placed, and all its predecessors are placed.
    pub open spec fn ready(&self, done: Seq<bool>, v: int) -> bool {
        &&& self.live(v)
        &&& !done[v]
        &&& forall|u: int| #[trigger] self.edge_set().contains((u, v)) ==> done[u]
    }

    /// Whether every predecessor of `v` is marked in `done`.
    fn preds_done(&self, done: &Vec<bool>, v: usize) -> (r: bool)
        requires
            self.wf(),
            done@.len() == self.node_count_spec(),
        ensures
            r == (forall|u: int| #[trigger] self.edge_set().contains((u, v as int)) ==> done@[u]),
    {
        let mut j: usize = 0;
        while j < self.edges.len()
            invariant
                self.wf(),
                done@.len() == self.nodes@.len(),
                j <= self.edges@.len(),
                forall|i: int|
                    #![trigger pair_at(self.edges@, i)]
                    0 <= i < j && pair_at(self.edges@, i).1 == v ==> done@[pair_at(self.edges@, i).0],
            decreases self.edges@.len() - j,
        {
            let (a, b) = self.edges[j];
            proof {
                assert(self.edge_at(j as int) == (a as int, b as int));
                assert(self.live(a as int));
            }
            if b == v && !done[a] {
                proof {
                    assert(pair_at(self.edges@, j as int) == (a as int, b as int));
                    assert(self.edge_set().contains((a as int, v as int)));
                }
                return false;
            }
            j += 1;
        }
        proof {
            assert forall|u: int| #[trigger] self.edge_set().contains((u, v as int)) implies done@[u] by {
                let i = choose|i: int| 0 <= i < self.edges@.len() && #[trigger] pair_at(self.edges@, i) == (u, v as int);
            }
        }
        true
    }

    /// The smallest ready node.
    fn first_ready(&self, done: &Vec<bool>) -> (r: Option<usize>)
        requires
            self.wf(),
            done@.len() == self.node_count_spec(),
        ensures
            match r {
                Some(v) => self.ready(done@, v as int) && forall|u: int| 0 <= u < v ==> !#[trigger] self.ready(done@, u),
                None => forall|u: int| !#[trigger] self.ready(done@, u),
            },
    {
        let mut v: usize = 0;
        while v < self.nodes.len()
            invariant
                self.wf(),
                done@.len() == self.nodes@.len(),
                v <= self.nodes@.len(),
                forall|u: int| 0 <= u < v ==> !#[trigger] self.ready(done@, u),
            decreases self.nodes@.len() - v,
        {
            if self.nodes[v].alive && !done[v] && self.preds_done(done, v) {
                return Some(v);
            }
            v += 1;
        }
        None
    }

    /// `v` may stand at position `k` of `s`: it is live, not placed before `k`, and all
    /// its predecessors are.
    pub open spec fn placeable(&self, s: Seq<int>, k: int, v: int) -> bool {
        &&& self.live(v)
        &&& !s.take(k).contains(v)
        &&& forall|u: int| #[trigger] self.edge_set().contains((u, v)) ==> s.take(k).contains(u)
    }

    /// Each position of `s` holds the smallest node, by registration order, that may
    /// stand there.
    pub open spec fn smallest_first(&self, s: Seq<int>) -> bool {
        forall|k: int|
            #![trigger s[k]]
            0 <= k < s.len() ==> self.placeable(s, k, s[k]) && forall|v: int|
                0 <= v < s[k] ==> !#[trigger] self.placeable(s, k, v)
    }

    /// Recomputes the schedule: repeatedly places the smallest live node whose
    /// predecessors are all placed.
    fn compute_schedule(&mut self)
        requires
            old(self).wf(),
            old(self).terminals_ok(),
        ensures
            final(self).wf(),
            final(self).is_built(),
            final(self).same_nodes(old(self)),
            final(self).edge_set() == old(self).edge_set(),
            is_topo_order(final(self).edge_set(), final(self).live_set(), final(self).schedule_view()),
            final(self).smallest_first(final(self).schedule_view()),
    {
        let n = self.nodes.len();
        let ghost es = self.edge_set();
        let ghost old_self = *self;
        let mut done: Vec<bool> = Vec::new();
        let mut k: usize = 0;
        while k < n
            invariant
                k <= n,
                n == self.nodes@.len(),
                done@.len() == k,
                forall|v: int| 0 <= v < k ==> !#[trigger] done@[v],
            decreases n - k,
        {
            done.push(false);
            k += 1;
        }
        let mut order: Vec<NodeId> = Vec::new();
        proof {
            let ov = order@.map_values(|m: NodeId| m.index as int);
            assert(ov.len() == 0);
        }
        loop
            invariant
                self.wf(),
                es == self.edge_set(),
                n == self.nodes@.len(),
                done@.len() == n,
                order@.len() <= n,
                forall|i: int|
                    0 <= i < order@.len() ==> 0 <= #[trigger] order@[i].index < n && self.live(
                        order@[i].index as int,
                    ) && done@[order@[i].index as int],
                forall|v: int| 0 <= v < n && #[trigger] done@[v] ==> exists|i: int|
                    0 <= i < order@.len() && #[trigger] order@[i].index == v,
                forall|i: int, j: int|
                    0 <= i < order@.len() && 0 <= j < order@.len() && i != j ==> #[trigger] order@[i].index
                        != #[trigger] order@[j].index,
                forall|i: int, j: int|
                    0 <= i < order@.len() && 0 <= j < order@.len() && #[trigger] es.contains(
                        (order@[i].index as int, order@[j].index as int),
                    ) ==> i < j,
                forall|i: int, u: int|
                    0 <= i < order@.len() && #[trigger] es.contains((u, order@[i].index as int))
                        ==> done@[u],
                self.smallest_first(order@.map_values(|m: NodeId| m.index as int)),
            ensures
                forall|u: int| !#[trigger] self.ready(done@, u),
            decreases n - order@.len(),
        {
            let next = self.first_ready(&done);
            match next {
                None => {
                    break;
                },
                Some(v) => {
                    let ghost done0 = done@;
                    let ghost order0 = order@;
                    proof {
                        assert(!es.contains((v as int, v as int))) by {
                            if es.contains((v as int, v as int)) {
                                let p = seq![v as int, v as int];
                                assert(es.contains((p[0], p[0int + 1])));
                                assert(is_path(es, p));
                            }
                        }
                    }
                    done.set(v, true);
                    order.push(NodeId { index: v });
                    proof {
                        let L = order0.len() as int;
                        assert(order@[L].index == v);
                        assert forall|i: int| 0 <= i < L implies #[trigger] order@[i].index != v by {
                            assert(order@[i] == order0[i]);
                            assert(done0[order0[i].index as int]);
                        }
                        assert forall|i: int, j: int|
                            0 <= i < order@.len() && 0 <= j < order@.len() && #[trigger] es.contains(
                                (order@[i].index as int, order@[j].index as int),
                            ) implies i < j by {
                            if i == L && j < L {
                                assert(order@[j] == order0[j]);
                                assert(done0[v as int]);
                            }
                            if i < L && j < L {
                                assert(order@[i] == order0[i] && order@[j] == order0[j]);
                            }
                        }
                        assert forall|i: int, u: int|
                            0 <= i < order@.len() && #[trigger] es.contains((u, order@[i].index as int))
                                implies done@[u] by {
                            self.lemma_edge_endpoints_live(u, order@[i].index as int);
                            if i < L {
                                assert(order@[i] == order0[i]);
                            }
                        }
                        assert forall|x: int| 0 <= x < n && #[trigger] done@[x] implies exists|i: int|
                            0 <= i < order@.len() && #[trigger] order@[i].index == x by {
                            if x != v {
                                let i = choose|i: int| 0 <= i < order0.len() && #[trigger] order0[i].index == x;
                                assert(order@[i] == order0[i]);
                            }
                        }
                        let ov = order@.map_values(|m: NodeId| m.index as int);
                        let ov0 = order0.map_values(|m: NodeId| m.index as int);
                        assert(ov.take(L) =~= ov0);
                        assert forall|x: int| 0 <= x < n implies (#[trigger] done0[x] <==> ov0.contains(x)) by {
                            if done0[x] {
                                let i = choose|i: int| 0 <= i < order0.len() && #[trigger] order0[i].index == x;
                                assert(ov0[i] == x);
                            }
                            if ov0.contains(x) {
                                let i = choose|i: int| 0 <= i < ov0.len() && ov0[i] == x;
                                assert(order0[i].index == x);
                            }
                        }
                        assert forall|x: int| self.placeable(ov, L, x) <==> #[trigger] self.ready(done0, x) by {
                            if self.placeable(ov, L, x) {
                                assert forall|u: int| #[trigger] self.edge_set().contains((u, x)) implies done0[u] by {
                                    self.lemma_edge_endpoints_live(u, x);
                                    assert(ov0.contains(u));
                                }
                            }
                            if self.ready(done0, x) {
                                assert forall|u: int| #[trigger] self.edge_set().contains((u, x)) implies ov.take(L).contains(u) by {
                                    self.lemma_edge_endpoints_live(u, x);
                                    assert(done0[u]);
                                }
                            }
                        }
                        assert(ov[L] == v);
                        assert forall|k: int|
                            #![trigger ov[k]]
                            0 <= k < ov.len() implies self.placeable(ov, k, ov[k]) && forall|y: int|
                                0 <= y < ov[k] ==> !#[trigger] self.placeable(ov, k, y) by {
                            if k < L {
                                assert(ov.take(k) =~= ov0.take(k));
                                assert(ov[k] == ov0[k]);
                                assert forall|y: int| #[trigger] self.placeable(ov, k, y) == self.placeable(ov0, k, y) by {
                                }
                            } else {
                                assert(self.ready(done0, v as int));
                                assert forall|y: int| 0 <= y < ov[k] implies !#[trigger] self.placeable(ov, k, y) by {
                                    assert(!self.ready(done0, y));
                                }
                            }
                        }
                        assert forall|i: int| 0 <= i < ov.len() implies 0 <= #[trigger] ov[i] < n by {
                        }
                        if order@.len() > n {
                            lemma_pigeonhole(ov, n as int);
                            assert(false);
                        }
                    }
                },
            }
        }
        proof {
            let rs = Set::new(|x: int| self.live(x) && !done@[x]);
            assert forall|x: int| #[trigger] rs.contains(x) implies 0 <= x < n by {
            }
            assert forall|x: int| #[trigger] rs.contains(x) implies exists|u: int|
                rs.contains(u) && es.contains((u, x)) by {
                assert(!self.ready(done@, x));
                let u = choose|u: int| #[trigger] es.contains((u, x)) && !done@[u];
                self.lemma_edge_endpoints_live(u, x);
                assert(rs.contains(u));
            }
            assert forall|x: int| self.live(x) implies done@[x] by {
                if !done@[x] {
                    lemma_closed_set_has_cycle(es, rs, x, n as nat);
                }
            }
        }
        let ghost mid_self = *self;
        self.schedule = order;
        self.built = true;
        proof {
            DependGraph::lemma_same_edges(*self, mid_self);
            assert(self.live_set() =~= mid_self.live_set());
            assert forall|x: int, y: int| #[trigger] self.edge_set().contains((x, y)) implies self.live(x)
                && self.live(y) by {
                mid_self.lemma_edge_endpoints_live(x, y);
            }
            self.lemma_wf_from_edge_set();
            assert forall|x: int, y: int|
                #[trigger] self.live(x) && #[trigger] self.live(y) && x != y implies self.nodes@[x].name@
                != self.nodes@[y].name@ by {
                assert(mid_self.live(x) && mid_self.live(y));
            }
            let sv = self.schedule_view();
            assert(sv == order@.map_values(|m: NodeId| m.index as int));
            assert(mid_self.smallest_first(sv));
            assert forall|k: int, y: int| #[trigger] self.placeable(sv, k, y) == mid_self.placeable(sv, k, y) by {
                assert(self.live(y) == mid_self.live(y));
            }
            assert forall|k: int|
                #![trigger sv[k]]
                0 <= k < sv.len() implies self.placeable(sv, k, sv[k]) && forall|y: int|
                    0 <= y < sv[k] ==> !#[trigger] self.placeable(sv, k, y) by {
                assert(mid_self.placeable(sv, k, sv[k]));
            }
            assert forall|i: int| 0 <= i < sv.len() implies #[trigger] self.live_set().contains(sv[i]) by {
                assert(self.live(self.schedule@[i].index as int));
            }
            assert forall|x: int| #[trigger] self.live_set().contains(x) implies sv.contains(x) by {
                assert(done@[x]);
                let i = choose|i: int| 0 <= i < self.schedule@.len() && #[trigger] self.schedule@[i].index == x;
                assert(sv[i] == x);
            }
            assert forall|i: int, j: int|
                0 <= i < sv.len() && 0 <= j < sv.len() && i != j implies sv[i] != sv[j] by {
                assert(self.schedule@[i].index != self.schedule@[j].index);
            }
            assert forall|i: int, j: int|
                0 <= i < sv.len() && 0 <= j < sv.len() && #[trigger] es.contains((sv[i], sv[j])) implies i < j by {
                assert(es.contains((self.schedule@[i].index as int, self.schedule@[j].index as int)));
            }
        }
        proof {
            assert forall|v: int| #[trigger] self.live(v) && !self.node(v).is_finish implies exists|x: int|
                self.edge_set().contains((v, x)) by {
                assert(old_self.live(v) && !old_self.node(v).is_finish);
                let x = choose|x: int| old_self.edge_set().contains((v, x));
                assert(self.edge_set().contains((v, x)));
            }
        }
    }

    /// Some edge leaves `v`.
    pub open spec fn has_successor(&self, v: int) -> bool {
        exists|x: int| self.edge_set().contains((v, x))
    }

    /// Whether some edge leaves `v`.
    fn successor_exists(&self, v: usize) -> (r: bool)
        requires
            self.wf(),
        ensures
            r == self.has_successor(v as int),
    {
        let mut j: usize = 0;
        while j < self.edges.len()
            invariant
                j <= self.edges@.len(),
                forall|i: int| 0 <= i < j ==> (#[trigger] pair_at(self.edges@, i)).0 != v,
            decreases self.edges@.len() - j,
        {
            if self.edges[j].0 == v {
                proof {
                    assert(self.edge_set().contains(pair_at(self.edges@, j as int)));
                }
                return true;
            }
            j += 1;
        }
        proof {
            assert forall|x: int| !self.edge_set().contains((v as int, x)) by {
                if self.edge_set().contains((v as int, x)) {
                    let k = choose|k: int| 0 <= k < self.edges@.len() && #[trigger] pair_at(self.edges@, k) == (v as int, x);
                }
            }
        }
        false
    }

    /// Marks every live node without a successor as a finish node.
    fn mark_leaves_finish(&mut self)
        requires
            old(self).wf(),
        ensures
            final(self).wf(),
            final(self).terminals_ok(),
            final(self).edge_set() == old(self).edge_set(),
            final(self).node_count_spec() == old(self).node_count_spec(),
            forall|v: int|
                0 <= v < old(self).node_count_spec() ==> {
                    &&& #[trigger] final(self).node(v).is_finish == (old(self).node(v).is_finish || (old(self).live(v) && !old(self).has_successor(v)))
                    &&& final(self).node(v).alive == old(self).node(v).alive
                    &&& final(self).node(v).name == old(self).node(v).name
                    &&& final(self).node(v).is_sub_graph == old(self).node(v).is_sub_graph
                    &&& final(self).node(v).can_run == old(self).node(v).can_run
                    &&& final(self).node(v).parent == old(self).node(v).parent
                },
    {
        let ghost gold = *self;
        self.built = false;
        let ghost g0 = *self;
        proof {
            DependGraph::lemma_same_edges(*self, gold);
            assert forall|x: int, y: int|
                #[trigger] self.live(x) && #[trigger] self.live(y) && x != y implies self.nodes@[x].name@
                != self.nodes@[y].name@ by {
                assert(gold.live(x) && gold.live(y));
            }
            assert forall|x: int, y: int| #[trigger] self.edge_set().contains((x, y)) implies self.live(x)
                && self.live(y) by {
                gold.lemma_edge_endpoints_live(x, y);
            }
            self.lemma_wf_from_edge_set();
        }
        let mut v: usize = 0;
        while v < self.nodes.len()
            invariant
                self.wf(),
                !self.built,
                self.edges@ == g0.edges@,
                self.nodes@.len() == g0.nodes@.len(),
                v <= self.nodes@.len(),
                g0.wf(),
                forall|u: int|
                    #![trigger self.nodes@[u]]
                    0 <= u < v ==> {
                        &&& self.nodes@[u].is_finish == (g0.nodes@[u].is_finish || (g0.live(u)
                            && !g0.has_successor(u)))
                        &&& self.nodes@[u].alive == g0.nodes@[u].alive
                        &&& self.nodes@[u].name == g0.nodes@[u].name
                        &&& self.nodes@[u].is_sub_graph == g0.nodes@[u].is_sub_graph
                        &&& self.nodes@[u].can_run == g0.nodes@[u].can_run
                        &&& self.nodes@[u].parent == g0.nodes@[u].parent
                    },
                forall|u: int| v <= u < self.nodes@.len() ==> #[trigger] self.nodes@[u] == g0.nodes@[u],
            decreases self.nodes@.len() - v,
        {
            proof {
                DependGraph::lemma_same_edges(*self, g0);
            }
            if self.nodes[v].alive && !self.nodes[v].is_finish && !self.successor_exists(v) {
                let ghost before = *self;
                let st = self.nodes[v].with_flags(true, true);
                self.nodes.set(v, st);
                proof {
                    DependGraph::lemma_same_edges(*self, before);
                    assert forall|u: int| 0 <= u < before.nodes@.len() implies #[trigger] self.live(u)
                        == before.live(u) by {
                        if u != v {
                            assert(self.nodes@[u] == before.nodes@[u]);
                        }
                    }
                    assert forall|x: int, y: int|
                        #[trigger] self.live(x) && #[trigger] self.live(y) && x != y implies self.nodes@[x].name@
                        != self.nodes@[y].name@ by {
                        assert(before.live(x) && before.live(y));
                    }
                    assert forall|x: int, y: int| #[trigger] self.edge_set().contains((x, y)) implies self.live(x)
                        && self.live(y) by {
                        before.lemma_edge_endpoints_live(x, y);
                    }
                    self.lemma_wf_from_edge_set();
                }
            }
            proof {
                DependGraph::lemma_same_edges(*self, g0);
            }
            v += 1;
        }
        proof {
            DependGraph::lemma_same_edges(*self, g0);
            assert forall|u: int| #[trigger] self.live(u) && !self.node(u).is_finish implies exists|x: int|
                self.edge_set().contains((u, x)) by {
                assert(g0.live(u));
                assert(g0.has_successor(u));
            }
        }
    }

    /// Recomputes the schedule: first every live node without a successor becomes a finish
    /// node, so that each node that is not a finish node has an outgoing edge; then the
    /// smallest live node whose predecessors are all placed is placed, repeatedly.
    pub fn build(&mut self) -> (r: Result<(), GraphError>)
        requires
            old(self).wf(),
        ensures
            final(self).wf(),
            r == Ok::<(), GraphError>(()),
            final(self).is_built(),
            final(self).terminals_ok(),
            final(self).edge_set() == old(self).edge_set(),
            final(self).node_count_spec() == old(self).node_count_spec(),
            forall|v: int|
                0 <= v < old(self).node_count_spec() ==> {
                    &&& #[trigger] final(self).node(v).is_finish == (old(self).node(v).is_finish || (old(self).live(v) && !old(self).has_successor(v)))
                    &&& final(self).node(v).alive == old(self).node(v).alive
                    &&& final(self).node(v).name == old(self).node(v).name
                    &&& final(self).node(v).is_sub_graph == old(self).node(v).is_sub_graph
                    &&& final(self).node(v).can_run == old(self).node(v).can_run
                    &&& final(self).node(v).parent == old(self).node(v).parent
                },
            is_topo_order(final(self).edge_set(), final(self).live_set(), final(self).schedule_view()),
            final(self).smallest_first(final(self).schedule_view()),
    {
        self.mark_leaves_finish();
        let ghost g1 = *self;
        self.compute_schedule();
        proof {
            assert forall|v: int| 0 <= v < old(self).node_count_spec() implies #[trigger] self.node(v) == g1.node(v) by {
            }
        }
        Ok(())
    }

    /// Among the first `j` edges there is one joining `x` to `v` (into `v` when `incoming`).
    pub closed spec fn joined_upto(&self, j: int, v: int, x: int, incoming: bool) -> bool {
        exists|i: int|
            0 <= i < j && #[trigger] pair_at(self.edges@, i) == (if incoming {
                (x, v)
            } else {
                (v, x)
            })
    }

    /// The nodes joined to `v` by an edge: its predecessors when `incoming`, else its
    /// successors, in the order the edges were added.
    fn neighbors(&self, v: usize, incoming: bool) -> (r: Vec<NodeId>)
        requires
            self.wf(),
        ensures
            forall|x: int|
                #[trigger] ids_contain(r@, x) <==> (if incoming {
                    self.edge_set().contains((x, v as int))
                } else {
                    self.edge_set().contains((v as int, x))
                }),
            ids_distinct(r@),
    {
        let mut r: Vec<NodeId> = Vec::new();
        let mut j: usize = 0;
        while j < self.edges.len()
            invariant
                self.wf(),
                j <= self.edges@.len(),
                forall|x: int| #[trigger] ids_contain(r@, x) <==> self.joined_upto(j as int, v as int, x, incoming),
                ids_distinct(r@),
            decreases self.edges@.len() - j,
        {
            let (a, b) = self.edges[j];
            let ghost r0 = r@;
            proof {
                assert(pair_at(self.edges@, j as int) == (a as int, b as int));
            }
            let ghost x_new = if incoming { a as int } else { b as int };
            if (incoming && b == v) || (!incoming && a == v) {
                proof {
                    if ids_contain(r0, x_new) {
                        assert(self.joined_upto(j as int, v as int, x_new, incoming));
                        let want = if incoming { (x_new, v as int) } else { (v as int, x_new) };
                        let k = choose|k: int| 0 <= k < j && #[trigger] pair_at(self.edges@, k) == want;
                        assert(self.edges@[k] == self.edges@[j as int]);
                    }
                }
            }
            if incoming && b == v {
                r.push(NodeId { index: a });
            } else if !incoming && a == v {
                r.push(NodeId { index: b });
            }
            proof {
                assert forall|p: int, q: int| 0 <= p < r@.len() && 0 <= q < r@.len() && p != q implies #[trigger] r@[p].index
                    != #[trigger] r@[q].index by {
                    if p < r0.len() && q < r0.len() {
                        assert(r@[p] == r0[p] && r@[q] == r0[q]);
                    } else if p < r0.len() {
                        assert(r@[p] == r0[p]);
                        assert(ids_contain(r0, r0[p].index as int));
                    } else {
                        assert(r@[q] == r0[q]);
                        assert(ids_contain(r0, r0[q].index as int));
                    }
                }
            }
            proof {
                assert forall|x: int| #[trigger] ids_contain(r@, x) <==> self.joined_upto(
                    j + 1,
                    v as int,
                    x,
                    incoming,
                ) by {
                    let want = if incoming { (x, v as int) } else { (v as int, x) };
                    if ids_contain(r@, x) {
                        let i = choose|i: int| 0 <= i < r@.len() && #[trigger] r@[i].index == x;
                        if i < r0.len() {
                            assert(r0[i] == r@[i]);
                            assert(ids_contain(r0, x));
                            let k = choose|k: int| 0 <= k < j && #[trigger] pair_at(self.edges@, k) == want;
                        } else {
                            assert(pair_at(self.edges@, j as int) == want);
                        }
                    }
                    if self.joined_upto(j + 1, v as int, x, incoming) {
                        let k = choose|k: int| 0 <= k < j + 1 && #[trigger] pair_at(self.edges@, k) == want;
                        if k < j {
                            assert(self.joined_upto(j as int, v as int, x, incoming));
                            assert(ids_contain(r0, x));
                            let i = choose|i: int| 0 <= i < r0.len() && #[trigger] r0[i].index == x;
                            assert(r@[i] == r0[i]);
                        } else {
                            assert(r@[r0.len() as int].index == x);
                        }
                    }
                }
            }
            j += 1;
        }
        proof {
            assert forall|x: int|
                #[trigger] ids_contain(r@, x) <==> (if incoming {
                    self.edge_set().contains((x, v as int))
                } else {
                    self.edge_set().contains((v as int, x))
                }) by {
                let want = if incoming { (x, v as int) } else { (v as int, x) };
                if self.edge_set().contains(want) {
                    let k = choose|k: int| 0 <= k < self.edges@.len() && #[trigger] pair_at(self.edges@, k) == want;
                    assert(self.joined_upto(self.edges@.len() as int, v as int, x, incoming));
                }
                if self.joined_upto(self.edges@.len() as int, v as int, x, incoming) {
                    let k = choose|k: int| 0 <= k < self.edges@.len() && #[trigger] pair_at(self.edges@, k) == want;
                }
            }
        }
        r
    }

    /// The predecessors of the node that `label` names.
    pub fn before_nodes(&self, label: &NodeLabel) -> (r: Result<Vec<NodeId>, GraphError>)
        requires
            self.wf(),
        ensures
            !self.label_found(*label) ==> r == Err::<Vec<NodeId>, GraphError>(GraphError::NodeNotFound),
            forall|v: int|
                #[trigger] self.label_is(*label, v) ==> r.is_ok() && ids_distinct(r->Ok_0@) && forall|x: int|
                    #[trigger] ids_contain(r->Ok_0@, x) <==> self.edge_set().contains((x, v)),
    {
        match self.resolve(label) {
            Some(v) => Ok(self.neighbors(v, true)),
            None => Err(GraphError::NodeNotFound),
        }
    }

    /// The successors of the node that `label` names.
    pub fn after_nodes(&self, label: &NodeLabel) -> (r: Result<Vec<NodeId>, GraphError>)
        requires
            self.wf(),
        ensures
            !self.label_found(*label) ==> r == Err::<Vec<NodeId>, GraphError>(GraphError::NodeNotFound),
            forall|v: int|
                #[trigger] self.label_is(*label, v) ==> r.is_ok() && ids_distinct(r->Ok_0@) && forall|x: int|
                    #[trigger] ids_contain(r->Ok_0@, x) <==> self.edge_set().contains((v, x)),
    {
        match self.resolve(label) {
            Some(v) => Ok(self.neighbors(v, false)),
            None => Err(GraphError::NodeNotFound),
        }
    }

    /// The cached schedule, valid when the graph is built.
    pub fn schedule_graph(&self) -> (r: &Vec<NodeId>)
        ensures
            r@.map_values(|n: NodeId| n.index as int) == self.schedule_view(),
    {
        &self.schedule
    }

    /// Rebuilds the schedule if a mutation made it stale.
    pub fn update(&mut self) -> (r: Result<(), GraphError>)
        requires
            old(self).wf(),
        ensures
            final(self).wf(),
            r == Ok::<(), GraphError>(()),
            final(self).is_built(),
            final(self).terminals_ok(),
            final(self).edge_set() == old(self).edge_set(),
            old(self).is_built() ==> *final(self) == *old(self),
            !old(self).is_built() ==> {
                &&& final(self).node_count_spec() == old(self).node_count_spec()
                &&& forall|v: int|
                    0 <= v < old(self).node_count_spec() ==> {
                        &&& #[trigger] final(self).node(v).is_finish == (old(self).node(v).is_finish || (old(self).live(v) && !old(self).has_successor(v)))
                        &&& final(self).node(v).alive == old(self).node(v).alive
                        &&& final(self).node(v).name == old(self).node(v).name
                        &&& final(self).node(v).is_sub_graph == old(self).node(v).is_sub_graph
                        &&& final(self).node(v).can_run == old(self).node(v).can_run
                        &&& final(self).node(v).parent == old(self).node(v).parent
                    }
                &&& is_topo_order(final(self).edge_set(), final(self).live_set(), final(self).schedule_view())
                &&& final(self).smallest_first(final(self).schedule_view())
            },
    {
        if self.built {
            Ok(())
        } else {
            self.build()
        }
    }

    /// The number of live nodes below `k` that are not sub-graphs.
    pub open spec fn count_nodes_below(&self, k: int) -> nat
        decreases k,
    {
        if k <= 0 {
            0
        } else {
            self.count_nodes_below(k - 1) + if self.live(k - 1) && !self.node(k - 1).is_sub_graph {
                1nat
            } else {
                0nat
            }
        }
    }

    /// The number of live nodes that are not sub-graphs.
    pub open spec fn count_nodes(&self) -> nat {
        self.count_nodes_below(self.node_count_spec() as int)
    }

    pub fn count_run_nodes(&self) -> (r: usize)
        requires
            self.wf(),
        ensures
            r == self.count_nodes(),
    {
        let mut c: usize = 0;
        let mut k: usize = 0;
        while k < self.nodes.len()
            invariant
                k <= self.nodes@.len(),
                c == self.count_nodes_below(k as int),
                c <= k,
            decreases self.nodes@.len() - k,
        {
            if self.nodes[k].alive && !self.nodes[k].is_sub_graph {
                c += 1;
            }
            k += 1;
        }
        c
    }

    /// A node with no outgoing edge reaches only itself.
    pub proof fn lemma_no_out_edges(&self, v: int, w: int)
        requires
            forall|x: int| !#[trigger] self.edge_set().contains((v, x)),
            v != w,
        ensures
            !reaches(self.edge_set(), v, w),
    {
        assert forall|p: Seq<int>| #[trigger] is_path(self.edge_set(), p) && p[0] == v implies p.last() != w by {
            if p.len() > 1 {
                assert(self.edge_set().contains((p[0], p[0int + 1])));
            }
        }
    }

    /// Whether some edge starts or ends at `v`.
    fn has_incident(&self, v: usize) -> (r: bool)
        ensures
            r == exists|x: int|
                #![trigger self.edge_set().contains((v as int, x))]
                #![trigger self.edge_set().contains((x, v as int))]
                self.edge_set().contains((v as int, x)) || self.edge_set().contains((x, v as int)),
    {
        let mut j: usize = 0;
        while j < self.edges.len()
            invariant
                j <= self.edges@.len(),
                forall|i: int|
                    #![trigger pair_at(self.edges@, i)]
                    0 <= i < j ==> pair_at(self.edges@, i).0 != v && pair_at(self.edges@, i).1 != v,
            decreases self.edges@.len() - j,
        {
            let (a, b) = self.edges[j];
            if a == v || b == v {
                proof {
                    assert(pair_at(self.edges@, j as int) == (a as int, b as int));
                    if a == v {
                        assert(self.edge_set().contains((v as int, b as int)));
                    } else {
                        assert(self.edge_set().contains((a as int, v as int)));
                    }
                }
                return true;
            }
            j += 1;
        }
        proof {
            assert forall|x: int|
                #![trigger self.edge_set().contains((v as int, x))]
                #![trigger self.edge_set().contains((x, v as int))]
                !self.edge_set().contains((v as int, x)) && !self.edge_set().contains((x, v as int)) by {
                if self.edge_set().contains((v as int, x)) {
                    let k = choose|k: int| 0 <= k < self.edges@.len() && #[trigger] pair_at(self.edges@, k) == (v as int, x);
                }
                if self.edge_set().contains((x, v as int)) {
                    let k = choose|k: int| 0 <= k < self.edges@.len() && #[trigger] pair_at(self.edges@, k) == (x, v as int);
                }
            }
        }
        false
    }

    /// The edges, without the clear node's edge into `v` when `skip_anchor`.
    pub open spec fn edges_without(&self, v: int, skip_anchor: bool) -> Set<(int, int)> {
        if skip_anchor {
            self.edge_set().remove((0, v))
        } else {
            self.edge_set()
        }
    }

    /// Whether an edge other than the skipped one starts or ends at `v`.
    pub fn touches_besides(&self, v: usize, skip_anchor: bool) -> (r: bool)
        ensures
            r == exists|x: int|
                #![trigger self.edges_without(v as int, skip_anchor).contains((v as int, x))]
                #![trigger self.edges_without(v as int, skip_anchor).contains((x, v as int))]
                self.edges_without(v as int, skip_anchor).contains((v as int, x))
                    || self.edges_without(v as int, skip_anchor).contains((x, v as int)),
    {
        let ghost es1 = self.edges_without(v as int, skip_anchor);
        let mut j: usize = 0;
        while j < self.edges.len()
            invariant
                j <= self.edges@.len(),
                es1 == self.edges_without(v as int, skip_anchor),
                forall|i: int|
                    #![trigger pair_at(self.edges@, i)]
                    0 <= i < j ==> !es1.contains(pair_at(self.edges@, i)) || (pair_at(self.edges@, i).0 != v
                        && pair_at(self.edges@, i).1 != v),
            decreases self.edges@.len() - j,
        {
            let (a, b) = self.edges[j];
            let skipped = skip_anchor && a == 0 && b == v;
            proof {
                assert(pair_at(self.edges@, j as int) == (a as int, b as int));
                assert(self.edge_set().contains((a as int, b as int)));
            }
            if !skipped && (a == v || b == v) {
                proof {
                    assert(es1.contains((a as int, b as int)));
                    if a == v {
                        assert(es1.contains((v as int, b as int)));
                    } else {
                        assert(es1.contains((a as int, v as int)));
                    }
                }
                return true;
            }
            j += 1;
        }
        proof {
            assert forall|x: int|
                #![trigger es1.contains((v as int, x))]
                #![trigger es1.contains((x, v as int))]
                !es1.contains((v as int, x)) && !es1.contains((x, v as int)) by {
                if es1.contains((v as int, x)) {
                    let k = choose|k: int| 0 <= k < self.edges@.len() && #[trigger] pair_at(self.edges@, k) == (v as int, x);
                }
                if es1.contains((x, v as int)) {
                    let k = choose|k: int| 0 <= k < self.edges@.len() && #[trigger] pair_at(self.edges@, k) == (x, v as int);
                }
            }
        }
        false
    }

    /// Moves a sub-graph under `parent`; only a sub-graph that no edge touches moves.
    pub fn set_sub_graph_parent(&mut self, k: NodeId, parent: NodeId) -> (r: bool)
        requires
            old(self).wf(),
        ensures
            final(self).wf(),
            r == (old(self).live(k.index as int) && old(self).node(k.index as int).is_sub_graph
                && old(self).parent_ok(parent) && !(exists|x: int|
                #![trigger old(self).edge_set().contains((k.index as int, x))]
                #![trigger old(self).edge_set().contains((x, k.index as int))]
                old(self).edge_set().contains((k.index as int, x)) || old(self).edge_set().contains(
                    (x, k.index as int),
                ))),
            !r ==> *final(self) == *old(self),
            r ==> {
                &&& final(self).node(k.index as int).parent == parent
                &&& final(self).node(k.index as int).name == old(self).node(k.index as int).name
                &&& final(self).node(k.index as int).alive
                &&& final(self).node(k.index as int).is_finish == old(self).node(k.index as int).is_finish
                &&& final(self).node(k.index as int).is_sub_graph
                &&& final(self).node(k.index as int).can_run == old(self).node(k.index as int).can_run
                &&& final(self).node_count_spec() == old(self).node_count_spec()
                &&& forall|u: int|
                    0 <= u < old(self).node_count_spec() && u != k.index ==> #[trigger] final(self).node(
                        u,
                    ) == old(self).node(u)
                &&& final(self).edge_set() == old(self).edge_set()
                &&& final(self).is_built() == old(self).is_built()
                &&& final(self).schedule_view() == old(self).schedule_view()
            },
    {
        if !(k.index < self.nodes.len() && self.nodes[k.index].alive && self.nodes[k.index].is_sub_graph) {
            return false;
        }
        if !self.check_parent(parent) || self.has_incident(k.index) {
            return false;
        }
        let ghost old_self = *self;
        let old_st = &self.nodes[k.index];
        let st = NodeState {
            name: old_st.name.clone(),
            alive: true,
            is_finish: old_st.is_finish,
            is_sub_graph: true,
            can_run: old_st.can_run,
            parent,
        };
        self.nodes.set(k.index, st);
        proof {
            DependGraph::lemma_same_edges(*self, old_self);
            assert(self.live_set() =~= old_self.live_set());
            assert forall|x: int, y: int| #[trigger] self.edge_set().contains((x, y)) implies self.live(x)
                && self.live(y) by {
                old_self.lemma_edge_endpoints_live(x, y);
            }
            self.lemma_wf_from_edge_set();
            assert forall|x: int, y: int|
                #[trigger] self.live(x) && #[trigger] self.live(y) && x != y implies self.nodes@[x].name@
                != self.nodes@[y].name@ by {
                assert(old_self.live(x) && old_self.live(y));
            }
            if self.built {
                assert forall|v: int| #[trigger] self.live(v) && !self.node(v).is_finish implies exists|x: int|
                    self.edge_set().contains((v, x)) by {
                    if v != k.index {
                        assert(self.nodes@[v] == old_self.nodes@[v]);
                    }
                    assert(old_self.live(v) && !old_self.node(v).is_finish);
                    let x = choose|x: int| old_self.edge_set().contains((v, x));
                    assert(self.edge_set().contains((v, x)));
                }
            }
        }
        true
    }

    /// A node that runs each frame: live, not a sub-graph, not registered as "not run".
    pub open spec fn runs(&self, v: int) -> bool {
        self.live(v) && self.node(v).can_run && !self.node(v).is_sub_graph
    }

    /// The nodes that run each frame, in schedule order; `None` while the schedule is stale,
    /// so that a frame never runs an outdated schedule.
    pub fn run_order(&self) -> (r: Option<Vec<NodeId>>)
        requires
            self.wf(),
        ensures
            !self.is_built() ==> r.is_none(),
            self.is_built() ==> r.is_some() && {
                let p = r->Some_0@;
                &&& forall|v: int| #[trigger] ids_contain(p, v) <==> self.runs(v)
                &&& forall|i: int, j: int|
                    0 <= i < p.len() && 0 <= j < p.len() && i != j ==> #[trigger] p[i].index
                        != #[trigger] p[j].index
                &&& forall|i: int, j: int|
                    0 <= i < p.len() && 0 <= j < p.len() && #[trigger] self.edge_set().contains(
                        (p[i].index as int, p[j].index as int),
                    ) ==> i < j
            },
    {
        if !self.built {
            return None;
        }
        let ghost sv = self.schedule_view();
        let ghost es = self.edge_set();
        let mut out: Vec<NodeId> = Vec::new();
        let ghost mut pos: Seq<int> = Seq::empty();
        let mut k: usize = 0;
        while k < self.schedule.len()
            invariant
                self.wf(),
                self.built,
                sv == self.schedule_view(),
                es == self.edge_set(),
                k <= self.schedule@.len(),
                pos.len() == out@.len(),
                forall|i: int| 0 <= i < out@.len() ==> 0 <= #[trigger] pos[i] < k && sv[pos[i]] == out@[i].index,
                forall|i: int, j: int| 0 <= i < j < out@.len() ==> #[trigger] pos[i] < #[trigger] pos[j],
                forall|i: int| 0 <= i < out@.len() ==> #[trigger] self.runs(out@[i].index as int),
                forall|q: int| 0 <= q < k && #[trigger] self.runs(sv[q]) ==> ids_contain(out@, sv[q]),
            decreases self.schedule@.len() - k,
        {
            let id = self.schedule[k];
            proof {
                assert(sv[k as int] == id.index);
                assert(self.live_set().contains(sv[k as int]));
            }
            if self.nodes[id.index].can_run && !self.nodes[id.index].is_sub_graph {
                let ghost out0 = out@;
                out.push(id);
                proof {
                    pos = pos.push(k as int);
                    assert forall|q: int| 0 <= q < k + 1 && #[trigger] self.runs(sv[q]) implies ids_contain(
                        out@,
                        sv[q],
                    ) by {
                        if q < k {
                            let i = choose|i: int| 0 <= i < out0.len() && #[trigger] out0[i].index == sv[q];
                            assert(out@[i] == out0[i]);
                        } else {
                            assert(out@[out0.len() as int] == id);
                        }
                    }
                }
            }
            k += 1;
        }
        proof {
            let p = out@;
            assert forall|v: int| #[trigger] ids_contain(p, v) <==> self.runs(v) by {
                if self.runs(v) {
                    assert(self.live_set().contains(v));
                    let q = choose|q: int| 0 <= q < sv.len() && sv[q] == v;
                }
                if ids_contain(p, v) {
                    let i = choose|i: int| 0 <= i < p.len() && #[trigger] p[i].index == v;
                }
            }
            assert forall|i: int, j: int|
                0 <= i < p.len() && 0 <= j < p.len() && i != j implies #[trigger] p[i].index
                    != #[trigger] p[j].index by {
                if i < j {
                    assert(pos[i] < pos[j]);
                } else {
                    assert(pos[j] < pos[i]);
                }
            }
            assert forall|i: int, j: int|
                0 <= i < p.len() && 0 <= j < p.len() && #[trigger] es.contains(
                    (p[i].index as int, p[j].index as int),
                ) implies i < j by {
                assert(es.contains((sv[pos[i]], sv[pos[j]])));
                if j < i {
                    assert(pos[j] < pos[i]);
                }
                if i == j {
                    assert(pos[i] == pos[j]);
                }
            }
        }
        Some(out)
    }

    /// For each position `j` of `order`, the earlier positions whose nodes reach `j`'s node.
    pub fn wait_lists(&self, order: &Vec<NodeId>) -> (r: Vec<Vec<usize>>)
        requires
            self.wf(),
            forall|i: int| 0 <= i < order@.len() ==> #[trigger] self.live(order@[i].index as int),
        ensures
            r@.len() == order@.len(),
            forall|j: int, x: int|
                #![trigger r@[j]@.contains(x as usize)]
                0 <= j < r@.len() && 0 <= x < r@.len() ==> (r@[j]@.contains(x as usize) <==> (x < j && reaches(
                    self.edge_set(),
                    order@[x].index as int,
                    order@[j].index as int,
                ))),
            deps_before(r@.map_values(|d: Vec<usize>| d@)),
    {
        let mut r: Vec<Vec<usize>> = Vec::new();
        let mut j: usize = 0;
        while j < order.len()
            invariant
                self.wf(),
                forall|i: int| 0 <= i < order@.len() ==> #[trigger] self.live(order@[i].index as int),
                j <= order@.len(),
                r@.len() == j,
                forall|a: int, x: int|
                    0 <= a < r@.len() ==> (#[trigger] r@[a]@.contains(x as usize) && 0 <= x <= usize::MAX
                        <==> (0 <= x < a && reaches(self.edge_set(), order@[x].index as int, order@[a].index as int))),
                forall|a: int, k: int| 0 <= a < r@.len() && 0 <= k < r@[a]@.len() ==> #[trigger] r@[a]@[k] < a,
            decreases order@.len() - j,
        {
            let mut d: Vec<usize> = Vec::new();
            let mut i: usize = 0;
            while i < j
                invariant
                    self.wf(),
                    forall|q: int| 0 <= q < order@.len() ==> #[trigger] self.live(order@[q].index as int),
                    j < order@.len(),
                    i <= j,
                    forall|x: int|
                        #[trigger] d@.contains(x as usize) && 0 <= x <= usize::MAX <==> (0 <= x < i && reaches(
                            self.edge_set(),
                            order@[x].index as int,
                            order@[j as int].index as int,
                        )),
                    forall|k: int| 0 <= k < d@.len() ==> #[trigger] d@[k] < i,
                decreases j - i,
            {
                proof {
                    assert(self.live(order@[i as int].index as int));
                    assert(self.live(order@[j as int].index as int));
                }
                let ghost d0 = d@;
                if self.reaches_exec(order[i].index, order[j].index) {
                    d.push(i);
                }
                proof {
                    assert forall|x: int|
                        #[trigger] d@.contains(x as usize) && 0 <= x <= usize::MAX <==> (0 <= x < i + 1 && reaches(
                            self.edge_set(),
                            order@[x].index as int,
                            order@[j as int].index as int,
                        )) by {
                        if d@.contains(x as usize) && 0 <= x <= usize::MAX && x != i {
                            let k = choose|k: int| 0 <= k < d@.len() && d@[k] == x as usize;
                            assert(d0[k] == x as usize);
                            assert(d0.contains(x as usize));
                        }
                        if 0 <= x < i && reaches(self.edge_set(), order@[x].index as int, order@[j as int].index as int) {
                            assert(d0.contains(x as usize));
                            let k = choose|k: int| 0 <= k < d0.len() && d0[k] == x as usize;
                            assert(d@[k] == x as usize);
                        }
                        if x == i && reaches(self.edge_set(), order@[x].index as int, order@[j as int].index as int) {
                            assert(d@[d@.len() - 1] == i);
                        }
                    }
                    assert forall|k: int| 0 <= k < d@.len() implies #[trigger] d@[k] < i + 1 by {
                        if k < d0.len() {
                            assert(d@[k] == d0[k]);
                        }
                    }
                }
                i += 1;
            }
            let ghost r0 = r@;
            r.push(d);
            proof {
                assert forall|a: int, x: int|
                    0 <= a < r@.len() implies (#[trigger] r@[a]@.contains(x as usize) && 0 <= x <= usize::MAX
                        <==> (0 <= x < a && reaches(self.edge_set(), order@[x].index as int, order@[a].index as int))) by {
                    if a < r0.len() {
                        assert(r@[a] == r0[a]);
                    }
                }
                assert forall|a: int, k: int| 0 <= a < r@.len() && 0 <= k < r@[a]@.len() implies #[trigger] r@[a]@[k]
                    < a by {
                    if a < r0.len() {
                        assert(r@[a] == r0[a]);
                    }
                }
            }
            j += 1;
        }
        proof {
            assert forall|a: int, x: int|
                #![trigger r@[a]@.contains(x as usize)]
                0 <= a < r@.len() && 0 <= x < r@.len() implies (r@[a]@.contains(x as usize) <==> (x < a && reaches(
                    self.edge_set(),
                    order@[x].index as int,
                    order@[a].index as int,
                ))) by {
                assert(r@[a]@.contains(x as usize) && 0 <= x <= usize::MAX <==> (0 <= x < a && reaches(
                    self.edge_set(),
                    order@[x].index as int,
                    order@[a].index as int,
                )));
            }
            let dv = r@.map_values(|d: Vec<usize>| d@);
            assert forall|a: int, k: int| 0 <= a < dv.len() && 0 <= k < dv[a].len() implies #[trigger] dv[a][k] < a by {
                assert(dv[a] == r@[a]@);
            }
        }
        r
    }

    /// `f` is a fresh frame over this graph's run order in which each node waits for the
    /// earlier nodes that reach it.
    pub open spec fn frame_matches(&self, f: FrameRun) -> bool {
        let p = f.order_view();
        &&& f.wf()
        &&& forall|v: int| #[trigger] ids_contain(p, v) <==> self.runs(v)
        &&& ids_distinct(p)
        &&& forall|i: int, j: int|
            0 <= i < p.len() && 0 <= j < p.len() && #[trigger] self.edge_set().contains(
                (p[i].index as int, p[j].index as int),
            ) ==> i < j
        &&& forall|j: int, x: int|
            0 <= j < p.len() && 0 <= x < p.len() ==> (#[trigger] f.deps_view()[j].contains(x as usize)
                <==> (x < j && reaches(self.edge_set(), p[x].index as int, p[j].index as int)))
        &&& forall|j: int| 0 <= j < p.len() ==> #[trigger] f.phases()[j] == NodePhase::Idle
    }

    /// A fresh frame over the run order, each node waiting for the earlier nodes that reach
    /// it; `None` while the schedule is stale.
    pub fn frame_run(&self) -> (r: Option<FrameRun>)
        requires
            self.wf(),
        ensures
            !self.is_built() ==> r.is_none(),
            self.is_built() ==> r.is_some() && self.frame_matches(r->Some_0),
    {
        match self.run_order() {
            None => None,
            Some(order) => {
                proof {
                    assert forall|i: int| 0 <= i < order@.len() implies #[trigger] self.live(order@[i].index as int) by {
                        assert(ids_contain(order@, order@[i].index as int));
                    }
                }
                let deps = self.wait_lists(&order);
                let ghost ov = order@;
                let ghost dv = deps@;
                let f = FrameRun::new(order, deps);
                proof {
                    let p = f.order_view();
                    assert(p == ov);
                    assert forall|j: int, x: int|
                        0 <= j < p.len() && 0 <= x < p.len() implies (#[trigger] f.deps_view()[j].contains(x as usize)
                            <==> (x < j && reaches(self.edge_set(), p[x].index as int, p[j].index as int))) by {
                        assert(f.deps_view()[j] == dv[j]@);
                        assert(dv[j]@.contains(x as usize) <==> (x < j && reaches(
                            self.edge_set(),
                            ov[x].index as int,
                            ov[j].index as int,
                        )));
                    }
                }
                Some(f)
            },
        }
    }

    /// The Graphviz text of the first `k` edges, one `"before" -> "after";` line each.
    pub closed spec fn dot_edges(&self, k: int) -> Seq<char>
        decreases k,
    {
        if k <= 0 || k > self.edges@.len() {
            Seq::empty()
        } else {
            let e = self.edges@[k - 1];
            self.dot_edges(k - 1) + "    \""@ + self.nodes@[e.0 as int].name@ + "\" -> \""@
                + self.nodes@[e.1 as int].name@ + "\";\n"@
        }
    }

    /// The Graphviz text of the graph.
    pub closed spec fn dot_text(&self) -> Seq<char> {
        "digraph {\n"@ + self.dot_edges(self.edges@.len() as int) + "}\n"@
    }

    /// The graph in Graphviz's dot language, for inspection.
    pub fn dump_graphviz(&self) -> (r: String)
        requires
            self.wf(),
        ensures
            r@ == self.dot_text(),
    {
        let mut out = String::new();
        out.append("digraph {\n");
        let mut j: usize = 0;
        while j < self.edges.len()
            invariant
                self.wf(),
                j <= self.edges@.len(),
                out@ == "digraph {\n"@ + self.dot_edges(j as int),
            decreases self.edges@.len() - j,
        {
            let (a, b) = self.edges[j];
            proof {
                assert(self.edge_at(j as int) == (a as int, b as int));
            }
            out.append("    \"");
            out.append(self.nodes[a].name.as_str());
            out.append("\" -> \"");
            out.append(self.nodes[b].name.as_str());
            out.append("\";\n");
            proof {
                let pre = "digraph {\n"@;
                assert(out@ =~= pre + self.dot_edges(j + 1));
            }
            j += 1;
        }
        out.append("}\n");
        out
    }

    /// A well-formed graph is acyclic, whether or not it is built.
    pub proof fn lemma_wf_acyclic(&self)
        requires
            self.wf(),
        ensures
            acyclic(self.edge_set()),
    {
    }

    /// Once built, the schedule lists every live node once, each edge goes forward in it,
    /// and every node that is not a finish node has a successor. Mutations keep the graph
    /// acyclic, so every graph they reach builds once each such node has a successor.
    pub proof fn lemma_built_schedule_orders_edges(&self)
        requires
            self.wf(),
            self.is_built(),
        ensures
            is_topo_order(self.edge_set(), self.live_set(), self.schedule_view()),
            acyclic(self.edge_set()),
            self.terminals_ok(),
    {
    }

    /// The live node that `label` names.
    pub fn resolve(&self, label: &NodeLabel) -> (r: Option<usize>)
        requires
            self.wf(),
        ensures
            match r {
                Some(v) => self.label_is(*label, v as int),
                None => !self.label_found(*label),
            },
    {
        match label {
            NodeLabel::Id(id) => {
                if id.index < self.nodes.len() && self.nodes[id.index].alive {
                    Some(id.index)
                } else {
                    None
                }
            },
            NodeLabel::Name(s) => {
                let r = self.find_name(s);
                proof {
                    if r.is_none() {
                        assert forall|v: int| !#[trigger] self.label_is(*label, v) by {
                            if self.label_is(*label, v) {
                                assert(self.live(v) && self.nodes@[v].name@ == s@);
                            }
                        }
                    }
                }
                r
            },
        }
    }
}

} // verus!
