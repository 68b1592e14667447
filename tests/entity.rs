use frame_graph::entity::{
    AllocAtWithoutReplacement, ArchetypeId, ArchetypeRow, Entities, Entity, EntityLocation, TableId,
    TableRow,
};

#[test]
fn allocate_free_and_reuse_with_next_generation() {
    let mut e = Entities::new();
    let a = e.allocate();
    let b = e.allocate();
    assert_eq!(a, Entity { index: 0, generation: 0 });
    assert_eq!(b, Entity { index: 1, generation: 0 });
    assert_eq!(e.len(), 2);
    assert!(e.free(a).is_some());
    assert!(e.free(a).is_none());
    assert!(!e.contains(a));
    assert_eq!(e.len(), 1);
    let c = e.allocate();
    assert_eq!(c, Entity { index: 0, generation: 1 });
    assert!(e.contains(c));
    assert_eq!(e.total_count(), 2);
}

#[test]
fn reserved_ids_come_from_the_free_list_then_past_the_end() {
    let mut e = Entities::new();
    let a = e.allocate();
    let _b = e.allocate();
    e.free(a);
    let mut it = e.reserve_entities(3);
    assert_eq!(it.len(), 3);
    assert_eq!(it.next(), Some(Entity { index: 0, generation: 1 }));
    assert_eq!(it.next(), Some(Entity { index: 2, generation: 0 }));
    assert_eq!(it.next(), Some(Entity { index: 3, generation: 0 }));
    assert_eq!(it.next(), None);
    assert!(e.needs_flush());
    assert!(!e.verify_flushed());
    assert_eq!(e.resolve_from_id(3), Some(Entity { index: 3, generation: 0 }));
    assert_eq!(e.resolve_from_id(4), None);
    e.flush_as_invalid();
    assert!(!e.needs_flush());
    assert_eq!(e.total_count(), 4);
    assert_eq!(e.len(), 4);
    assert_eq!(e.get(Entity { index: 3, generation: 0 }), None);
}

#[test]
fn reserve_entity_and_clear() {
    let mut e = Entities::new();
    let r = e.reserve_entity();
    assert_eq!(r, Entity { index: 0, generation: 0 });
    e.flush_as_invalid();
    assert_eq!(e.len(), 1);
    assert!(!e.is_empty());
    e.reserve(10);
    e.clear();
    assert!(e.is_empty());
    assert_eq!(e.total_count(), 0);
}

#[test]
fn generations_skip_only_on_unplaced_slots() {
    let mut e = Entities::new();
    let a = e.allocate();
    assert!(e.reserve_generations(0, 5));
    assert!(!e.contains(a));
    assert!(e.contains(Entity { index: 0, generation: 5 }));
    assert!(!e.reserve_generations(9, 1));
}

#[test]
fn ids_and_rows_round_trip_their_index() {
    assert_eq!(TableId::new(7).index(), 7);
    assert_eq!(TableId::empty().index(), 0);
    assert_eq!(TableRow::new(3).index(), 3);
    assert_eq!(ArchetypeRow::new(4).index(), 4);
    assert_eq!(ArchetypeId::new(5).index(), 5);
    let loc = EntityLocation::invalid();
    assert_eq!(loc.table_id, TableId::invalid());
    assert_eq!(loc.archetype_id.index(), u32::MAX as usize);
}

#[test]
fn entity_bits_put_generation_high() {
    let e = Entity { index: 5, generation: 2 };
    assert_eq!(e.to_bits(), (2u64 << 32) | 5);
    assert_eq!(Entity::from_bits((2u64 << 32) | 5), e);
}

#[test]
fn alloc_at_grows_the_slots_and_frees_the_skipped_ones() {
    let mut e = Entities::new();
    assert_eq!(e.alloc_at(Entity { index: 3, generation: 7 }), None);
    assert_eq!(e.total_count(), 4);
    assert_eq!(e.len(), 1);
    assert!(e.contains(Entity { index: 3, generation: 7 }));
    // the skipped slots are free: allocation takes the last one pushed
    assert_eq!(e.allocate(), Entity { index: 2, generation: 0 });
    // a free slot is taken off the free list
    assert_eq!(e.alloc_at(Entity { index: 0, generation: 4 }), None);
    assert_eq!(e.len(), 3);
    assert_eq!(e.allocate(), Entity { index: 1, generation: 0 });
    assert_eq!(e.allocate(), Entity { index: 4, generation: 0 });
}

#[test]
fn alloc_at_on_a_used_slot_hands_back_its_location() {
    let mut e = Entities::new();
    let a = e.allocate();
    let before = e.alloc_at(Entity { index: a.index, generation: 9 });
    assert_eq!(before, Some(EntityLocation::invalid()));
    assert!(e.contains(Entity { index: 0, generation: 9 }));
    assert_eq!(e.len(), 1);
}

#[test]
fn alloc_at_without_replacement_reports_what_held_the_slot() {
    let mut e = Entities::new();
    assert_eq!(
        e.alloc_at_without_replacement(Entity { index: 1, generation: 2 }),
        AllocAtWithoutReplacement::DidNotExist
    );
    assert!(e.contains(Entity { index: 1, generation: 2 }));
    // slot 1 has no archetype yet, so it still counts as not existing
    assert_eq!(
        e.alloc_at_without_replacement(Entity { index: 1, generation: 5 }),
        AllocAtWithoutReplacement::DidNotExist
    );
    assert!(e.contains(Entity { index: 1, generation: 5 }));
}

#[test]
fn bulk_reserve_fills_every_slot_with_invalid_meta() {
    let mut e = Entities::new();
    e.flush_and_reserve_invalid_assuming_no_entities(3);
    assert_eq!(e.total_count(), 3);
    assert_eq!(e.len(), 3);
    assert_eq!(e.resolve_from_id(2), Some(Entity { index: 2, generation: u32::MAX }));
    assert_eq!(e.get(Entity { index: 2, generation: u32::MAX }), None);
}

#[test]
fn a_free_slot_cannot_be_freed_again() {
    let mut e = Entities::new();
    let a = e.allocate();
    assert!(e.free(a).is_some());
    // the slot is free with generation 1; freeing that id again is refused
    assert!(e.free(Entity { index: 0, generation: 1 }).is_none());
    assert_eq!(e.allocate(), Entity { index: 0, generation: 1 });
    assert_eq!(e.allocate(), Entity { index: 1, generation: 0 });
}
