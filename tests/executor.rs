use frame_graph::executor::{frame_size, should_run, FrameRun, FrameState, NodePhase};
use frame_graph::graph::NodeId;

#[test]
fn suspended_app_draws_no_frame() {
    assert_eq!(frame_size(FrameState::UnActive, Some((800, 600))), None);
    assert_eq!(frame_size(FrameState::Active, Some((800, 600))), Some((800, 600)));
    assert_eq!(frame_size(FrameState::Active, None), None);
    assert!(should_run(FrameState::default()));
    assert!(!should_run(FrameState::UnActive));
}

#[test]
fn independent_nodes_may_start_together() {
    let order = vec![NodeId::new(0), NodeId::new(1), NodeId::new(2)];
    let deps = vec![vec![], vec![], vec![0, 1]];
    let mut f = FrameRun::new(order, deps);
    assert_eq!(f.next_ready(), Some(0));
    f.start(0);
    assert_eq!(f.next_ready(), Some(1));
    f.start(1);
    assert_eq!(f.next_ready(), None);
    f.finish(1, Ok(()));
    assert_eq!(f.next_ready(), None);
    f.finish(0, Ok(()));
    assert_eq!(f.next_ready(), Some(2));
    assert_eq!(f.phase_of(2), NodePhase::Idle);
    assert_eq!(f.start(2), NodeId::new(2));
    f.finish(2, Ok(()));
    assert!(f.is_complete());
    assert!(f.errors().is_empty());
}
