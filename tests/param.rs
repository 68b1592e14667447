use frame_graph::graph::NodeId;
use frame_graph::param::{collect_input, pass_through, InParam, OutParam};
use std::any::TypeId;

#[derive(Clone, Copy, Debug, Default, PartialEq)]
struct Target(u32);

#[derive(Clone, Copy, Debug, Default, PartialEq)]
struct Rect(u32, u32);

#[test]
fn default_input_passes_through_as_default_output() {
    let input: InParam<Target> = collect_input(TypeId::of::<Target>(), Target::default(), &vec![], &vec![]);
    assert_eq!(input.filled_by, None);
    let out = pass_through(&input);
    assert_eq!(out.value, Target::default());
    assert_eq!(out.tag, TypeId::of::<Target>());
}

#[test]
fn input_ignores_outputs_of_another_type() {
    let outs = vec![OutParam { tag: TypeId::of::<Rect>(), value: Target(9) }];
    let input = collect_input(TypeId::of::<Target>(), Target(0), &vec![NodeId::new(3)], &outs);
    assert_eq!(input.value, Target(0));
    assert_eq!(input.filled_by, None);
}

#[test]
fn last_matching_output_fills_the_input() {
    let t = TypeId::of::<Target>();
    let outs = vec![
        OutParam { tag: t, value: Target(1) },
        OutParam { tag: TypeId::of::<Rect>(), value: Target(2) },
        OutParam { tag: t, value: Target(3) },
    ];
    let from = vec![NodeId::new(1), NodeId::new(2), NodeId::new(4)];
    let input = collect_input(t, Target(0), &from, &outs);
    assert_eq!(input.value, Target(3));
    assert_eq!(input.filled_by, Some(NodeId::new(4)));
}

#[test]
fn fill_from_reports_whether_it_took_the_value() {
    let mut input = InParam::new(TypeId::of::<Rect>(), Rect(0, 0));
    assert!(input.can_fill(&TypeId::of::<Rect>()));
    assert!(!input.can_fill(&TypeId::of::<Target>()));
    let ok = input.fill_from(NodeId::new(1), &OutParam { tag: TypeId::of::<Rect>(), value: Rect(4, 5) });
    assert!(ok);
    assert_eq!(input.value, Rect(4, 5));
    let refused = input.fill_from(NodeId::new(2), &OutParam { tag: TypeId::of::<Target>(), value: Rect(7, 7) });
    assert!(!refused);
    assert_eq!(input.value, Rect(4, 5));
}
