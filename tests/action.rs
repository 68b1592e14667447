use frame_graph::action::ActionList;

#[test]
fn drain_returns_pushed_actions_in_order_and_empties_the_list() {
    let mut l: ActionList<u8> = ActionList::default();
    l.push(3);
    l.push(1);
    assert_eq!(l.drain(), vec![3, 1]);
    assert_eq!(l.len(), 0);
    assert_eq!(l.drain(), Vec::<u8>::new());
}
