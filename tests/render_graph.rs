use frame_graph::async_queue::TaskQueue;
use frame_graph::executor::NodePhase;
use frame_graph::graph::{GraphError, NodeId, NodeLabel};
use frame_graph::render_graph::{RenderGraph, CLEAR_WIDNOW_NODE};

fn name(s: &str) -> NodeLabel {
    NodeLabel::Name(s.to_string())
}

fn add(g: &mut RenderGraph, s: &str) -> NodeId {
    g.add_node(s.to_string(), NodeId::null()).unwrap()
}

fn position(order: &[NodeId], id: NodeId) -> usize {
    order.iter().position(|x| *x == id).unwrap()
}

fn is_finish(g: &RenderGraph, id: NodeId) -> bool {
    g.graph_ref().node_state(id).unwrap().is_finish
}

const CLEAR: NodeId = NodeId { index: 0 };

#[test]
fn new_graph_holds_the_clear_node_as_finish_node() {
    let g = RenderGraph::new();
    let st = g.graph_ref().node_state(CLEAR).unwrap();
    assert_eq!(st.name, CLEAR_WIDNOW_NODE);
    assert!(st.is_finish);
}

#[test]
fn build_orders_every_edge_forward() {
    let mut g = RenderGraph::new();
    let a = add(&mut g, "a");
    let b = add(&mut g, "b");
    let c = add(&mut g, "c");
    let d = add(&mut g, "d");
    g.add_depend(&name("c"), &name("a")).unwrap();
    g.add_depend(&name("d"), &name("c")).unwrap();
    g.add_depend(&name("b"), &name("d")).unwrap();
    g.build().unwrap();
    let order = g.schedule_graph().clone();
    assert_eq!(order.len(), 5);
    let edges = [(CLEAR, a), (CLEAR, b), (CLEAR, c), (CLEAR, d), (c, a), (d, c), (b, d)];
    for (x, y) in edges {
        assert!(position(&order, x) < position(&order, y));
    }
    // ties go to the node registered first
    assert_eq!(order, vec![CLEAR, b, d, c, a]);
}

#[test]
fn cycle_is_refused_and_edges_stay_unchanged() {
    let mut g = RenderGraph::new();
    let a = add(&mut g, "a");
    let b = add(&mut g, "b");
    let c = add(&mut g, "c");
    g.add_depend(&name("a"), &name("b")).unwrap();
    g.add_depend(&name("b"), &name("c")).unwrap();
    let before = g.after_nodes(&name("c")).unwrap();
    assert_eq!(g.add_depend(&name("c"), &name("a")), Err(GraphError::Cycle));
    assert_eq!(g.add_depend(&name("a"), &name("a")), Err(GraphError::Cycle));
    assert_eq!(g.after_nodes(&name("c")).unwrap(), before);
    assert_eq!(g.before_nodes(&NodeLabel::Id(a)).unwrap(), vec![CLEAR]);
    assert_eq!(g.after_nodes(&NodeLabel::Id(a)).unwrap(), vec![b]);
    assert_eq!(g.before_nodes(&NodeLabel::Id(c)).unwrap(), vec![CLEAR, b]);
}

#[test]
fn removing_the_last_other_node_makes_clear_a_finish_node_again() {
    let mut g = RenderGraph::new();
    let n = add(&mut g, "n");
    assert!(!is_finish(&g, CLEAR));
    assert_eq!(g.after_nodes(&NodeLabel::Id(CLEAR)).unwrap(), vec![n]);
    assert_eq!(g.remove_node(&name("n")), Ok(n));
    assert!(is_finish(&g, CLEAR));
    assert_eq!(g.after_nodes(&NodeLabel::Id(CLEAR)).unwrap(), Vec::<NodeId>::new());
    assert_eq!(g.before_nodes(&NodeLabel::Id(n)), Err(GraphError::NodeNotFound));
}

#[test]
fn removing_a_node_removes_exactly_its_edges() {
    let mut g = RenderGraph::new();
    let a = add(&mut g, "a");
    let b = add(&mut g, "b");
    let c = add(&mut g, "c");
    g.add_depend(&name("a"), &name("b")).unwrap();
    g.add_depend(&name("b"), &name("c")).unwrap();
    g.add_depend(&name("a"), &name("c")).unwrap();
    assert_eq!(g.remove_node(&name("b")), Ok(b));
    assert_eq!(g.after_nodes(&NodeLabel::Id(a)).unwrap(), vec![c]);
    assert_eq!(g.before_nodes(&NodeLabel::Id(c)).unwrap(), vec![CLEAR, a]);
    assert!(!is_finish(&g, CLEAR));
}

#[test]
fn clear_node_submits_before_a_single_node() {
    let mut g = RenderGraph::new();
    let n = add(&mut g, "node");
    g.build().unwrap();
    let order = g.run_order().unwrap();
    assert_eq!(order, vec![CLEAR, n]);
    let mut q: TaskQueue<NodeId> = TaskQueue::new();
    let mut submitted = Vec::new();
    // the node finishes before the clear node
    q.push(position(&order, n), n);
    submitted.extend(q.drain_ready());
    q.push(position(&order, CLEAR), CLEAR);
    submitted.extend(q.drain_ready());
    assert_eq!(submitted, vec![CLEAR, n]);
}

#[test]
fn diamond_submits_a_first_and_d_last() {
    let mut g = RenderGraph::new();
    let a = add(&mut g, "A");
    let b = add(&mut g, "B");
    let c = add(&mut g, "C");
    let d = add(&mut g, "D");
    g.add_depend(&name("A"), &name("B")).unwrap();
    g.add_depend(&name("A"), &name("C")).unwrap();
    g.add_depend(&name("B"), &name("D")).unwrap();
    g.add_depend(&name("C"), &name("D")).unwrap();
    g.build().unwrap();
    let order = g.run_order().unwrap();
    let mut q: TaskQueue<NodeId> = TaskQueue::new();
    let mut submitted = Vec::new();
    for id in [d, c, b, CLEAR, a] {
        q.push(position(&order, id), id);
        submitted.extend(q.drain_ready());
    }
    assert_eq!(submitted.len(), 5);
    let pa = position(&submitted, a);
    let pb = position(&submitted, b);
    let pc = position(&submitted, c);
    let pd = position(&submitted, d);
    assert!(pa < pb && pa < pc && pb < pd && pc < pd);
    assert_eq!(pa, 1);
    assert_eq!(pd, 4);
}

#[test]
fn run_is_refused_after_a_change_until_rebuilt() {
    let mut g = RenderGraph::new();
    assert!(g.run_order().is_none());
    g.build().unwrap();
    assert_eq!(g.run_order(), Some(vec![CLEAR]));
    let n = add(&mut g, "n");
    assert!(g.run_order().is_none());
    g.update().unwrap();
    // n had no successor, so building made it a finish node
    assert!(is_finish(&g, n));
    assert_eq!(g.run_order(), Some(vec![CLEAR, n]));
    g.remove_depend(&NodeLabel::Id(CLEAR), &NodeLabel::Id(n)).unwrap();
    assert!(g.run_order().is_none());
}

#[test]
fn duplicate_name_is_refused() {
    let mut g = RenderGraph::new();
    add(&mut g, "a");
    assert_eq!(g.add_node("a".to_string(), NodeId::null()), Err(GraphError::DuplicateName));
    assert_eq!(
        g.add_node(CLEAR_WIDNOW_NODE.to_string(), NodeId::null()),
        Err(GraphError::DuplicateName)
    );
}

#[test]
fn unknown_nodes_and_edges_are_reported() {
    let mut g = RenderGraph::new();
    add(&mut g, "a");
    add(&mut g, "b");
    assert_eq!(g.add_depend(&name("a"), &name("zz")), Err(GraphError::NodeNotFound));
    assert_eq!(g.remove_depend(&name("a"), &name("b")), Err(GraphError::EdgeNotFound));
    assert_eq!(g.remove_node(&name("zz")), Err(GraphError::NodeNotFound));
    assert_eq!(g.set_finish(&name("zz"), true), Err(GraphError::NodeNotFound));
    assert_eq!(
        g.add_node("c".to_string(), NodeId { index: 1 }),
        Err(GraphError::NodeNotFound)
    );
}

#[test]
fn node_not_run_and_sub_graphs_stay_out_of_the_run_order() {
    let mut g = RenderGraph::new();
    let s = g.add_sub_graph("sub".to_string()).unwrap();
    let quiet = g.add_node_not_run("quiet".to_string(), NodeId::null()).unwrap();
    let n = g.add_node("n".to_string(), s).unwrap();
    g.build().unwrap();
    assert_eq!(g.schedule_graph().len(), 4);
    assert_eq!(g.run_order(), Some(vec![CLEAR, n]));
    assert_eq!(g.graph_ref().node_state(n).unwrap().parent, s);
    assert_eq!(g.before_nodes(&NodeLabel::Id(quiet)).unwrap(), vec![CLEAR]);
}

#[test]
fn sub_graph_moves_only_while_unconnected() {
    let mut g = RenderGraph::new();
    let outer = g.add_sub_graph("outer".to_string()).unwrap();
    let inner = g.add_sub_graph("inner".to_string()).unwrap();
    assert!(g.set_sub_graph_parent(inner, outer));
    assert_eq!(g.graph_ref().node_state(inner).unwrap().parent, outer);
    assert_eq!(g.before_nodes(&NodeLabel::Id(inner)).unwrap(), Vec::<NodeId>::new());
    add(&mut g, "x");
    g.add_depend(&name("x"), &name("outer")).unwrap();
    let edges_before = g.before_nodes(&name("outer")).unwrap();
    assert!(!g.set_sub_graph_parent(outer, inner));
    assert!(g.graph_ref().node_state(outer).unwrap().parent.is_null());
    // the refused move leaves the clear node's edge in place
    assert_eq!(g.before_nodes(&name("outer")).unwrap(), edges_before);
    assert_eq!(edges_before, vec![CLEAR, NodeId { index: 3 }]);
}

#[test]
fn set_finish_marks_the_schedule_stale() {
    let mut g = RenderGraph::new();
    let n = add(&mut g, "n");
    assert!(!is_finish(&g, n));
    g.build().unwrap();
    // build marks a node without a successor as a finish node
    assert!(is_finish(&g, n));
    assert!(!is_finish(&g, CLEAR));
    assert_eq!(g.run_order(), Some(vec![CLEAR, n]));
    g.set_finish(&NodeLabel::Id(n), true).unwrap();
    assert!(g.run_order().is_none());
    assert_eq!(g.get_prev_ids(n), Some(vec![CLEAR]));
    assert_eq!(g.get_next_ids(CLEAR), Some(vec![n]));
    assert_eq!(g.get_next_ids(NodeId { index: 7 }), None);
}

#[test]
fn frame_starts_nodes_only_after_what_they_wait_for() {
    let mut g = RenderGraph::new();
    let a = add(&mut g, "A");
    let b = add(&mut g, "B");
    let c = add(&mut g, "C");
    let d = add(&mut g, "D");
    g.add_depend(&name("A"), &name("B")).unwrap();
    g.add_depend(&name("A"), &name("C")).unwrap();
    g.add_depend(&name("B"), &name("D")).unwrap();
    g.add_depend(&name("C"), &name("D")).unwrap();
    assert!(g.frame_run().is_none());
    g.build().unwrap();
    let mut f = g.frame_run().unwrap();
    assert_eq!(f.len(), 5);
    assert_eq!(f.sentinel_index(), 5);
    let j = f.next_ready().unwrap();
    assert_eq!(f.start(j), CLEAR);
    assert_eq!(f.next_ready(), None);
    f.finish(j, Ok(()));
    let ja = f.next_ready().unwrap();
    assert_eq!(f.start(ja), a);
    f.finish(ja, Ok(()));
    // B and C may overlap
    let jb = f.next_ready().unwrap();
    assert_eq!(f.start(jb), b);
    let jc = f.next_ready().unwrap();
    assert_eq!(f.start(jc), c);
    assert_eq!(f.phase_of(jc), NodePhase::Running);
    assert_eq!(f.next_ready(), None);
    f.finish(jc, Err("lost device".to_string()));
    assert_eq!(f.next_ready(), None);
    f.finish(jb, Ok(()));
    let jd = f.next_ready().unwrap();
    assert_eq!(f.start(jd), d);
    assert!(!f.is_complete());
    f.finish(jd, Ok(()));
    assert!(f.is_complete());
    assert_eq!(f.errors().clone(), vec![(c, "lost device".to_string())]);
}

#[test]
fn graphviz_lists_every_edge_by_name() {
    let mut g = RenderGraph::new();
    let a = add(&mut g, "a");
    let b = add(&mut g, "b");
    g.add_depend(&name("a"), &name("b")).unwrap();
    assert_eq!(g.after_nodes(&name("a")).unwrap(), vec![b]);
    // adding an existing edge again changes nothing
    g.add_depend(&name("a"), &name("b")).unwrap();
    assert_eq!(g.after_nodes(&name("a")).unwrap(), vec![b]);
    assert_eq!(g.before_nodes(&name("b")).unwrap(), vec![CLEAR, a]);
    assert_eq!(
        g.dump_graphviz(),
        "digraph {\n    \"clear_window\" -> \"a\";\n    \"clear_window\" -> \"b\";\n    \"a\" -> \"b\";\n}\n"
    );
    assert_eq!(RenderGraph::new().dump_graphviz(), "digraph {\n}\n");
}

#[test]
fn refused_reparent_keeps_every_edge() {
    let mut g = RenderGraph::new();
    let s1 = g.add_sub_graph("s1".to_string()).unwrap();
    let s2 = g.add_sub_graph("s2".to_string()).unwrap();
    g.add_depend(&name("s1"), &name("s2")).unwrap();
    let before = g.dump_graphviz();
    assert!(!g.set_sub_graph_parent(s2, s1));
    assert_eq!(g.dump_graphviz(), before);
    assert_eq!(g.before_nodes(&NodeLabel::Id(s2)).unwrap(), vec![CLEAR, s1]);
}

#[test]
fn clear_node_keeps_running_as_nodes_come_and_go() {
    let mut g = RenderGraph::new();
    let n = add(&mut g, "n");
    let st = g.graph_ref().node_state(CLEAR).unwrap();
    assert!(!st.is_finish && st.can_run && !st.is_sub_graph);
    g.remove_node(&NodeLabel::Id(n)).unwrap();
    let st = g.graph_ref().node_state(CLEAR).unwrap();
    assert!(st.is_finish && st.can_run && !st.is_sub_graph);
    g.build().unwrap();
    assert_eq!(g.run_order(), Some(vec![CLEAR]));
}
