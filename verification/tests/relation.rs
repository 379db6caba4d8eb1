use latch::ecs::entity::Entity;
use latch::ecs::query::relation::{
    next_power_of_two, RelationBuffer, RelationDelta, RelationPayloadRange, RelationRecord, RelationType,
};

fn rec(a: u32, b: u32, ty: u16) -> RelationRecord {
    RelationRecord::new(Entity::new(a, 0), Entity::new(b, 0), RelationType::new(ty), None)
}

#[test]
fn relation_type_round_trips_raw() {
    assert_eq!(RelationType::new(9).raw(), 9);
}

#[test]
fn delta_flip_negates_both_axes() {
    assert_eq!(RelationDelta { dx: 2, dy: -5 }.flipped(), RelationDelta { dx: -2, dy: 5 });
}

#[test]
fn payload_range_empty_when_len_zero() {
    assert!(RelationPayloadRange { start: 4, len: 0 }.is_empty());
    assert!(!RelationPayloadRange { start: 4, len: 1 }.is_empty());
}

#[test]
fn next_power_of_two_rounds_up() {
    assert_eq!(next_power_of_two(0), 1);
    assert_eq!(next_power_of_two(1), 1);
    assert_eq!(next_power_of_two(5), 8);
    assert_eq!(next_power_of_two(64), 64);
}

#[test]
fn pushed_relations_read_back_in_order() {
    let mut buf = RelationBuffer::new(2, 4);
    buf.push_relation(rec(1, 2, 3), &[], Some(RelationDelta { dx: 1, dy: 0 }));
    buf.push_relation(rec(2, 3, 3), &[7, 8, 9], None);
    buf.push_relation(rec(1, 3, 4), &[], None);
    assert_eq!(buf.len(), 3);
    let mut it = buf.iter();
    assert_eq!(it.next(), Some(rec(1, 2, 3)));
    let second = it.next().unwrap();
    assert_eq!(second.payload, Some(RelationPayloadRange { start: 0, len: 3 }));
    assert_eq!(it.next(), Some(rec(1, 3, 4)));
    assert_eq!(it.next(), None);
    assert_eq!(buf.payload_slice(RelationPayloadRange { start: 0, len: 3 }), Some(vec![7, 8, 9]));
    assert_eq!(buf.payload_slice(RelationPayloadRange { start: 1, len: 2 }), Some(vec![8, 9]));
    assert_eq!(buf.payload_slice(RelationPayloadRange { start: 10, len: 2 }), None);
}

#[test]
fn each_side_of_a_relation_lists_the_other() {
    let mut buf = RelationBuffer::new(4, 4);
    buf.push_relation(rec(1, 2, 3), &[], Some(RelationDelta { dx: 4, dy: -1 }));
    let a = buf.relations_for(Entity::new(1, 0));
    assert_eq!(a.len(), 1);
    assert_eq!(a[0].other, Entity::new(2, 0));
    assert_eq!(a[0].delta, Some(RelationDelta { dx: 4, dy: -1 }));
    let b = buf.relations_for_entity_id(2);
    assert_eq!(b[0].other, Entity::new(1, 0));
    assert_eq!(b[0].delta, Some(RelationDelta { dx: -4, dy: 1 }));
    assert!(buf.relations_for_entity_id(5).is_empty());
}

#[test]
fn clear_forgets_everything() {
    let mut buf = RelationBuffer::new(4, 4);
    buf.push_relation(rec(1, 2, 3), &[1, 2], None);
    buf.clear();
    assert_eq!(buf.len(), 0);
    assert!(buf.iter().next().is_none());
    assert!(buf.relations_for_entity_id(1).is_empty());
    buf.push_relation(rec(5, 6, 3), &[], None);
    assert_eq!(buf.relations_for_entity_id(5).len(), 1);
}

#[test]
fn two_pushes_keep_payload_ranges_and_both_sides() {
    let mut b = RelationBuffer::new(4, 4);
    let a = Entity::new(1, 0);
    let c = Entity::new(2, 5);
    let t = RelationType::new(7);
    assert!(b.has_room_for(3));
    b.push_relation(RelationRecord::new(a, c, t, None), &[1, 2, 3], Some(RelationDelta { dx: 3, dy: -1 }));
    assert!(b.has_room_for(2));
    b.push_relation(RelationRecord::new(c, a, t, None), &[9, 8], None);
    assert_eq!(b.len(), 2);
    let mut it = b.iter();
    assert_eq!(it.next().unwrap().payload, Some(RelationPayloadRange { start: 0, len: 3 }));
    assert_eq!(it.next().unwrap().payload, Some(RelationPayloadRange { start: 3, len: 2 }));
    let for_a = b.relations_for(a);
    assert_eq!(for_a.len(), 2);
    assert_eq!((for_a[0].other, for_a[0].delta), (c, Some(RelationDelta { dx: 3, dy: -1 })));
    assert_eq!((for_a[1].other, for_a[1].delta), (c, None));
    assert_eq!(b.relations_for(c)[0].delta, Some(RelationDelta { dx: -3, dy: 1 }));
    assert_eq!(b.payload_slice(RelationPayloadRange { start: 3, len: 2 }), Some(vec![9, 8]));
}
