use latch::ecs::builder::{EntityBuilder, EntityBuilderError};
use latch::ecs::component::{register_component, ComponentRegistry};
use latch::ecs::entity::Entity;
use latch::ecs::query::relation::{RelationBuffer, RelationDelta, RelationType};
use latch::ecs::query::spatial_hash::{SpatialHashConfig, SpatialHashGrid};
use latch::ecs::storage::plan::PageBudget;
use latch::ecs::system_descriptor::SystemDescriptor;
use latch::ecs::system_registration_error::SystemRegistrationError;
use latch::ecs::world::{World, WorldError};
use latch::ecs::storage::archetype_storage::StorageError;
use latch::pool::PoolError;

fn registry() -> (ComponentRegistry, u32, u32) {
    let mut reg = ComponentRegistry::new();
    let pos = register_component(&mut reg, "Position", 8, 4, 8, true, Vec::new());
    let vel = register_component(&mut reg, "Velocity", 8, 4, 8, true, Vec::new());
    (reg, pos.id, vel.id)
}

fn pos_bytes(x: i32, y: i32) -> Vec<u8> {
    let mut v = x.to_ne_bytes().to_vec();
    v.extend_from_slice(&y.to_ne_bytes());
    v
}

fn world() -> World {
    World::with_page_budget(PageBudget::with_l2_bytes(256 * 1024))
}

fn spawn_at(w: &mut World, reg: &ComponentRegistry, pos: u32, x: i32, y: i32) -> Entity {
    w.spawn(reg, EntityBuilder::new().with_bytes(pos, pos_bytes(x, y))).unwrap()
}

#[test]
fn spawn_then_locate_finds_the_entity() {
    let (reg, pos, _) = registry();
    let mut w = world();
    let e = spawn_at(&mut w, &reg, pos, 1, 2);
    assert_eq!(w.live_entity_count(), 1);
    assert_eq!(w.entity_count(), 1);
    assert_eq!(w.allocated_slots(), 1);
    let loc = w.locate(e).unwrap();
    assert_eq!(loc.index, 0);
    assert_eq!(loc.generation, 0);
    assert_eq!(w.archetypes_with(pos), &[loc.archetype][..]);
    assert_eq!(w.storage(loc.archetype).unwrap().entity_count(), 1);
}

#[test]
fn despawned_entity_is_not_alive_then_stale_after_flush() {
    let (reg, pos, _) = registry();
    let mut w = world();
    let e = spawn_at(&mut w, &reg, pos, 1, 2);
    w.despawn(e).unwrap();
    assert_eq!(w.live_entity_count(), 0);
    assert_eq!(w.locate(e), Err(WorldError::EntityNotAlive { entity: e }));
    assert_eq!(w.despawn(e), Err(WorldError::EntityNotAlive { entity: e }));
    w.flush_despawns().unwrap();
    assert_eq!(w.locate(e), Err(WorldError::StaleEntity { entity: e }));
    let loc_arch = w.archetypes_with(pos)[0];
    assert_eq!(w.storage(loc_arch).unwrap().entity_count(), 0);
}

#[test]
fn freed_slot_is_reused_with_next_generation() {
    let (reg, pos, _) = registry();
    let mut w = world();
    let e = spawn_at(&mut w, &reg, pos, 0, 0);
    w.despawn(e).unwrap();
    w.flush_despawns().unwrap();
    let e2 = spawn_at(&mut w, &reg, pos, 5, 5);
    assert_eq!(e2.index(), e.index());
    assert_eq!(e2.generation(), e.generation() + 1);
    assert_eq!(w.allocated_slots(), 1);
    assert!(w.locate(e2).is_ok());
    assert_eq!(w.locate(e), Err(WorldError::StaleEntity { entity: e }));
}

#[test]
fn flush_moves_last_row_into_freed_row() {
    let (reg, pos, _) = registry();
    let mut w = world();
    let a = spawn_at(&mut w, &reg, pos, 0, 0);
    let b = spawn_at(&mut w, &reg, pos, 1, 1);
    let c = spawn_at(&mut w, &reg, pos, 2, 2);
    w.despawn(a).unwrap();
    w.flush_despawns().unwrap();
    assert_eq!(w.locate(c).unwrap().index, 0);
    assert_eq!(w.locate(b).unwrap().index, 1);
    assert_eq!(w.live_entity_count(), 2);
    let arch = w.locate(b).unwrap().archetype;
    assert_eq!(w.storage(arch).unwrap().entity_count(), 2);
}

#[test]
fn located_row_holds_the_entity_and_its_bytes() {
    let (reg, pos, _) = registry();
    let mut w = world();
    let a = spawn_at(&mut w, &reg, pos, 3, 4);
    let b = spawn_at(&mut w, &reg, pos, 5, 6);
    let loc_b = w.locate(b).unwrap();
    assert_eq!(loc_b.index, 1);
    let st = w.storage(loc_b.archetype).unwrap();
    assert_eq!(st.entity_count(), 2);
    assert_eq!(st.entity_id_at(loc_b.index), Ok(b.index()));
    let col = st.column(pos).unwrap();
    assert_eq!(col.slice_read(loc_b.index..loc_b.index + 1), Ok(&pos_bytes(5, 6)[..]));
    w.despawn(a).unwrap();
    let loc_b2 = w.locate(b).unwrap();
    let st = w.storage(loc_b2.archetype).unwrap();
    assert_eq!(st.entity_id_at(loc_b2.index), Ok(b.index()));
}

#[test]
fn despawn_then_flush_frees_exactly_that_slot() {
    let (reg, pos, _) = registry();
    let mut w = world();
    let a = spawn_at(&mut w, &reg, pos, 0, 0);
    let b = spawn_at(&mut w, &reg, pos, 1, 1);
    w.despawn(a).unwrap();
    w.flush_despawns().unwrap();
    let c = spawn_at(&mut w, &reg, pos, 2, 2);
    assert_eq!(c.index(), a.index());
    assert_eq!(c.generation(), a.generation() + 1);
    assert_eq!(w.allocated_slots(), 2);
    let loc_c = w.locate(c).unwrap();
    let st = w.storage(loc_c.archetype).unwrap();
    assert_eq!(loc_c.index, 1);
    assert_eq!(st.entity_id_at(loc_c.index), Ok(c.index()));
    assert_eq!(st.entity_id_at(w.locate(b).unwrap().index), Ok(b.index()));
}

#[test]
fn flush_with_nothing_pending_changes_nothing() {
    let (reg, pos, _) = registry();
    let mut w = world();
    let a = spawn_at(&mut w, &reg, pos, 0, 0);
    w.flush_despawns().unwrap();
    assert_eq!(w.locate(a).unwrap().index, 0);
    assert_eq!(w.live_entity_count(), 1);
}

#[test]
fn locate_unknown_index_is_refused() {
    let w = world();
    let e = Entity::new(7, 0);
    assert_eq!(w.locate(e), Err(WorldError::UnknownEntity { entity: e }));
}

#[test]
fn despawn_unknown_and_stale_are_refused() {
    let (reg, pos, _) = registry();
    let mut w = world();
    let ghost = Entity::new(3, 0);
    assert_eq!(w.despawn(ghost), Err(WorldError::UnknownEntity { entity: ghost }));
    let e = spawn_at(&mut w, &reg, pos, 0, 0);
    let stale = Entity::new(e.index(), e.generation() + 1);
    assert_eq!(w.despawn(stale), Err(WorldError::StaleEntity { entity: stale }));
}

#[test]
fn spawn_with_unregistered_component_is_refused() {
    let (reg, _, _) = registry();
    let mut w = world();
    let r = w.spawn(&reg, EntityBuilder::new().with_bytes(9, vec![0u8; 8]));
    assert_eq!(r, Err(WorldError::Builder(EntityBuilderError::ComponentNotRegistered { component_id: 9 })));
    assert_eq!(w.live_entity_count(), 0);
    assert_eq!(w.allocated_slots(), 0);
}

#[test]
fn spawn_with_wrong_stride_is_refused() {
    let (reg, pos, _) = registry();
    let mut w = world();
    let r = w.spawn(&reg, EntityBuilder::new().with_bytes(pos, vec![0u8; 3]));
    assert_eq!(
        r,
        Err(WorldError::Builder(EntityBuilderError::StrideMismatch { component_id: pos, expected: 8, actual: 3 }))
    );
}

#[test]
fn entities_with_same_components_share_an_archetype() {
    let (reg, pos, vel) = registry();
    let mut w = world();
    let a = w.spawn(&reg, EntityBuilder::new().with_bytes(pos, pos_bytes(0, 0)).with_bytes(vel, pos_bytes(1, 1))).unwrap();
    let b = w.spawn(&reg, EntityBuilder::new().with_bytes(vel, pos_bytes(2, 2)).with_bytes(pos, pos_bytes(3, 3))).unwrap();
    let c = spawn_at(&mut w, &reg, pos, 4, 4);
    let la = w.locate(a).unwrap();
    let lb = w.locate(b).unwrap();
    let lc = w.locate(c).unwrap();
    assert_eq!(la.archetype, lb.archetype);
    assert_ne!(la.archetype, lc.archetype);
    assert_eq!(lb.index, 1);
    assert_eq!(w.archetypes_with(pos).len(), 2);
    assert_eq!(w.archetypes_with(vel), &[la.archetype][..]);
    assert_eq!(w.matching_archetypes(&[vel, pos]), vec![la.archetype]);
    assert_eq!(w.matching_archetypes(&[pos]), vec![la.archetype, lc.archetype]);
    assert!(w.matching_archetypes(&[]).is_empty());
}

#[test]
fn resolve_entity_gives_live_handles_only() {
    let (reg, pos, _) = registry();
    let mut w = world();
    let e = spawn_at(&mut w, &reg, pos, 0, 0);
    assert_eq!(w.resolve_entity(e.index()), Some(e));
    w.despawn(e).unwrap();
    assert_eq!(w.resolve_entity(e.index()), None);
    assert_eq!(w.resolve_entity(42), None);
}

#[test]
fn systems_register_and_conflicts_are_refused() {
    let mut w = world();
    let h = w.register_system(SystemDescriptor::new("move").reads(&[1]).writes(&[0])).unwrap();
    assert_eq!(h.index(), 0);
    assert_eq!(w.system_descriptor(h).unwrap().name(), "move");
    assert_eq!(w.system_read_components(h), Some(&[1u32][..]));
    assert_eq!(w.system_write_components(h), Some(&[0u32][..]));
    let dup = w.register_system(SystemDescriptor::new("move").reads(&[2]));
    assert!(matches!(dup, Err(SystemRegistrationError::DuplicateName { .. })));
    let empty = w.register_system(SystemDescriptor::new("idle"));
    assert!(matches!(empty, Err(SystemRegistrationError::EmptyAccess { .. })));
    let clash = w.register_system(SystemDescriptor::new("push").writes(&[0]));
    assert!(matches!(clash, Err(SystemRegistrationError::ComponentWriteConflict { .. })));
    assert_eq!(w.systems().len(), 1);
}

fn grid(pos: u32, cell: i32, radius: i32) -> SpatialHashGrid {
    SpatialHashGrid::new(SpatialHashConfig::new(pos, cell, radius, RelationType::new(7)))
}

#[test]
fn spatial_hash_relates_entities_within_radius() {
    let (reg, pos, _) = registry();
    let mut w = world();
    let e1 = spawn_at(&mut w, &reg, pos, 0, 0);
    let e2 = spawn_at(&mut w, &reg, pos, 3, 4);
    let _far = spawn_at(&mut w, &reg, pos, 100, 100);
    let mut g = grid(pos, 10, 5);
    let mut buffer = RelationBuffer::new(64, 256);
    g.rebuild(&w, &mut buffer);
    assert_eq!(buffer.len(), 1);
    let mut it = buffer.iter();
    let rec = it.next().unwrap();
    assert_eq!(rec.entity_a, e1);
    assert_eq!(rec.entity_b, e2);
    assert_eq!(rec.relation_type, RelationType::new(7));
    assert!(it.next().is_none());
    let for_e1 = buffer.relations_for(e1);
    assert_eq!(for_e1.len(), 1);
    assert_eq!(for_e1[0].other, e2);
    assert_eq!(for_e1[0].delta, Some(RelationDelta { dx: 3, dy: 4 }));
    let for_e2 = buffer.relations_for(e2);
    assert_eq!(for_e2[0].other, e1);
    assert_eq!(for_e2[0].delta, Some(RelationDelta { dx: -3, dy: -4 }));
    let m = g.metrics();
    assert_eq!(m.entities, 3);
    assert_eq!(m.relations, 1);
    assert_eq!(m.total_calls, 1);
}

#[test]
fn spatial_hash_skips_despawned_entities() {
    let (reg, pos, _) = registry();
    let mut w = world();
    let e1 = spawn_at(&mut w, &reg, pos, 0, 0);
    let _e2 = spawn_at(&mut w, &reg, pos, 1, 0);
    w.despawn(e1).unwrap();
    let mut g = grid(pos, 10, 5);
    let mut buffer = RelationBuffer::new(64, 256);
    g.rebuild(&w, &mut buffer);
    assert_eq!(buffer.len(), 0);
    assert_eq!(g.metrics().entities, 1);
}

#[test]
fn writes_through_storage_mut_stay_in_the_world() {
    let (reg, pos, _) = registry();
    let mut w = world();
    let e = spawn_at(&mut w, &reg, pos, 1, 2);
    let loc = w.locate(e).unwrap();
    {
        let st = w.storage_mut(loc.archetype).unwrap();
        let col = st.column_mut(pos).unwrap();
        col.write_cur_at(loc.index, &pos_bytes(7, 9)).unwrap();
    }
    let col = w.storage(loc.archetype).unwrap().column(pos).unwrap();
    assert_eq!(col.slice_read(loc.index..loc.index + 1).unwrap(), &pos_bytes(7, 9)[..]);
    assert!(w.storage_mut(loc.archetype.wrapping_add(1)).is_none());
}

#[test]
fn flush_fails_when_a_moved_row_is_moved_again() {
    let (reg, pos, _) = registry();
    let mut w = world();
    let a = spawn_at(&mut w, &reg, pos, 0, 0);
    let b = spawn_at(&mut w, &reg, pos, 1, 1);
    let _c = spawn_at(&mut w, &reg, pos, 2, 2);
    w.despawn(a).unwrap();
    w.despawn(b).unwrap();
    assert_eq!(
        w.flush_despawns(),
        Err(WorldError::Storage(StorageError::EntityPool(PoolError::IndexOutOfBounds { index: 1, len: 1 })))
    );
}
