use latch::ecs::component::{power_of_two, try_register_component, ComponentHandle, ComponentRegistry, RegisterError};
use latch::ecs::entity::Entity;
use latch::ecs::query::accelerator_slots::AcceleratorSlots;
use latch::ecs::query::relation::{RelationBuffer, RelationPayloadRange, RelationRecord, RelationType};

#[test]
fn power_of_two_checks() {
    assert!(!power_of_two(0));
    assert!(power_of_two(1));
    assert!(power_of_two(64));
    assert!(!power_of_two(12));
}

#[test]
fn try_register_refuses_bad_layouts() {
    let mut reg = ComponentRegistry::new();
    assert_eq!(
        try_register_component(&mut reg, "A", 8, 3, 9, true, Vec::new()),
        Err(RegisterError::AlignmentNotPowerOfTwo)
    );
    assert_eq!(try_register_component(&mut reg, "A", 8, 4, 4, true, Vec::new()), Err(RegisterError::StrideBelowSize));
    assert_eq!(
        try_register_component(&mut reg, "A", 6, 4, 6, true, Vec::new()),
        Err(RegisterError::StrideNotMultipleOfAlign)
    );
    assert!(reg.meta_of_name("A").is_none());
}

#[test]
fn try_register_gives_the_same_handle_again_and_refuses_conflicts() {
    let mut reg = ComponentRegistry::new();
    let h = try_register_component(&mut reg, "Pos", 8, 4, 8, true, Vec::new()).unwrap();
    assert_eq!(h, ComponentHandle { id: 0, size: 8, align: 4, stride: 8, pod: true });
    let v = try_register_component(&mut reg, "Vel", 12, 4, 12, true, Vec::new()).unwrap();
    assert_eq!(v.id, 1);
    assert_eq!(try_register_component(&mut reg, "Pos", 8, 4, 8, true, Vec::new()), Ok(h));
    assert_eq!(
        try_register_component(&mut reg, "Pos", 16, 4, 16, true, Vec::new()),
        Err(RegisterError::ConflictingLayout)
    );
}

#[test]
fn accelerator_slots_one_per_type() {
    let mut slots = AcceleratorSlots::new();
    assert_eq!(slots.register(7), Some(0));
    assert_eq!(slots.register(3), Some(1));
    assert_eq!(slots.register(7), None);
    assert_eq!(slots.slot_of(3), Some(1));
    assert_eq!(slots.slot_of(9), None);
}

fn rec(a: u32, b: u32) -> RelationRecord {
    RelationRecord::new(Entity::new(a, 0), Entity::new(b, 0), RelationType::new(1), None)
}

#[test]
fn payload_reads_back_across_pages() {
    let mut buf = RelationBuffer::new(1, 2);
    buf.push_relation(rec(1, 2), &[1, 2, 3, 4, 5], None);
    buf.push_relation(rec(2, 3), &[6], None);
    assert_eq!(buf.payload_slice(RelationPayloadRange { start: 0, len: 5 }), Some(vec![1, 2, 3, 4, 5]));
    assert_eq!(buf.payload_slice(RelationPayloadRange { start: 5, len: 1 }), Some(vec![6]));
    assert_eq!(buf.payload_slice(RelationPayloadRange { start: 3, len: 0 }), Some(vec![]));
}

#[test]
fn clear_then_push_starts_payload_at_zero() {
    let mut buf = RelationBuffer::new(2, 4);
    buf.push_relation(rec(1, 2), &[1, 2, 3], None);
    buf.clear();
    assert_eq!(buf.len(), 0);
    buf.push_relation(rec(4, 5), &[9, 8], None);
    assert_eq!(buf.len(), 1);
    assert_eq!(buf.payload_slice(RelationPayloadRange { start: 0, len: 2 }), Some(vec![9, 8]));
}
