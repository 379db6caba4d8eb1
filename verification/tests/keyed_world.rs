use latch::ecs::keyed_world::World;

const POSITION: u64 = 1;
const VELOCITY: u64 = 2;
const HEALTH: u64 = 3;

fn pair(x: f32, y: f32) -> Vec<u8> {
    let mut b = x.to_le_bytes().to_vec();
    b.extend_from_slice(&y.to_le_bytes());
    b
}

fn first(b: &[u8]) -> f32 {
    f32::from_le_bytes([b[0], b[1], b[2], b[3]])
}

fn second(b: &[u8]) -> f32 {
    f32::from_le_bytes([b[4], b[5], b[6], b[7]])
}

#[test]
fn test_entity_creation() {
    let mut world = World::new();
    let e1 = world.spawn();
    let e2 = world.spawn();
    assert!(world.is_valid(e1));
    assert!(world.is_valid(e2));
    assert_ne!(e1, e2);
    assert_eq!(e1.index(), 0);
    assert_eq!(e2.index(), 1);
}

#[test]
fn test_entity_despawn() {
    let mut world = World::new();
    let entity = world.spawn();
    assert!(world.is_valid(entity));
    assert!(world.despawn(entity));
    assert!(!world.is_valid(entity));
    assert!(!world.despawn(entity));
}

#[test]
fn test_component_add_get() {
    let mut world = World::new();
    let entity = world.spawn();
    assert!(world.add_component(entity, POSITION, pair(10.0, 20.0)));
    let pos = world.get_component(entity, POSITION).unwrap();
    assert_eq!(first(pos), 10.0);
    assert_eq!(second(pos), 20.0);
    assert!(world.get_component(entity, VELOCITY).is_none());
}

#[test]
fn test_component_mutation() {
    let mut world = World::new();
    let entity = world.spawn();
    world.add_component(entity, POSITION, pair(0.0, 0.0));
    let mut pos = world.get_component(entity, POSITION).unwrap().clone();
    pos[..4].copy_from_slice(&100.0f32.to_le_bytes());
    assert!(world.set_component(entity, POSITION, pos));
    assert!(!world.set_component(entity, VELOCITY, pair(1.0, 1.0)));
    let pos = world.get_component(entity, POSITION).unwrap();
    assert_eq!(first(pos), 100.0);
    assert_eq!(world.query(POSITION).len(), 1);
}

#[test]
fn test_query_single_component() {
    let mut world = World::new();
    let e1 = world.spawn();
    world.add_component(e1, POSITION, pair(1.0, 2.0));
    let e2 = world.spawn();
    world.add_component(e2, POSITION, pair(3.0, 4.0));
    let positions = world.query(POSITION);
    assert_eq!(positions.len(), 2);
    assert_eq!(positions[0].0, e1);
    assert_eq!(positions[1].0, e2);
    assert_eq!(first(&positions[1].1), 3.0);
}

#[test]
fn test_query_multiple_components() {
    let mut world = World::new();
    let e1 = world.spawn();
    world.add_component2(e1, POSITION, pair(0.0, 0.0), VELOCITY, pair(1.0, 1.0));
    let e2 = world.spawn();
    world.add_component(e2, POSITION, pair(10.0, 10.0));
    let results = world.query2(POSITION, VELOCITY);
    assert_eq!(results.len(), 1);
    let (entity, pos, vel) = &results[0];
    assert_eq!(*entity, e1);
    assert_eq!(first(pos), 0.0);
    assert_eq!(first(vel), 1.0);
}

#[test]
fn keyed_migration_carries_components() {
    let mut world = World::new();
    let e = world.spawn();
    world.add_component(e, POSITION, pair(5.0, 6.0));
    world.add_component(e, VELOCITY, pair(7.0, 8.0));
    world.add_component(e, HEALTH, vec![100]);
    assert_eq!(first(world.get_component(e, POSITION).unwrap()), 5.0);
    assert_eq!(second(world.get_component(e, VELOCITY).unwrap()), 8.0);
    assert_eq!(world.get_component(e, HEALTH).unwrap(), &vec![100u8]);
    assert_eq!(world.query(POSITION).len(), 1);
    assert_eq!(world.query(HEALTH).len(), 1);
}

#[test]
fn keyed_add_component3_and_despawn_moves_last_row() {
    let mut world = World::new();
    let a = world.spawn();
    let b = world.spawn();
    let c = world.spawn();
    for (e, v) in [(a, 1u8), (b, 2), (c, 3)] {
        assert!(world.add_component3(e, POSITION, vec![v], VELOCITY, vec![v + 10], HEALTH, vec![v + 20]));
    }
    assert!(world.despawn(a));
    let rows = world.query(VELOCITY);
    assert_eq!(rows.len(), 2);
    assert_eq!(rows[0].0, c);
    assert_eq!(rows[0].1, vec![13u8]);
    assert_eq!(rows[1].0, b);
    assert_eq!(world.get_component(c, HEALTH).unwrap(), &vec![23u8]);
    assert!(world.get_component(a, HEALTH).is_none());
}

#[test]
fn keyed_despawned_slot_is_reused_with_next_generation() {
    let mut world = World::with_capacity(2);
    let a = world.spawn();
    assert!(world.despawn(a));
    let b = world.spawn();
    assert_eq!(b.index(), a.index());
    assert_eq!(b.generation(), a.generation() + 1);
    assert!(!world.is_valid(a));
    assert!(!world.add_component(a, POSITION, vec![1]));
    assert!(world.query(POSITION).is_empty());
}

#[test]
fn keyed_spawn_grows_by_doubling() {
    let mut world = World::with_capacity(1);
    let a = world.spawn();
    let b = world.spawn();
    let c = world.spawn();
    assert_eq!(a.index(), 0);
    assert_eq!(b.index(), 1);
    assert_eq!(c.index(), 2);
    assert!(world.is_valid(c));
}

#[test]
fn keyed_same_key_set_shares_archetype_in_any_order() {
    let mut world = World::new();
    let a = world.spawn();
    world.add_component2(a, POSITION, vec![1], VELOCITY, vec![2]);
    let b = world.spawn();
    world.add_component2(b, VELOCITY, vec![3], POSITION, vec![4]);
    let both = world.query2(POSITION, VELOCITY);
    assert_eq!(both.len(), 2);
    assert_eq!(both[1].0, b);
    assert_eq!(both[1].1, vec![4u8]);
    assert_eq!(both[1].2, vec![3u8]);
}

#[test]
fn keyed_spawn_with_adds_each_component_last_bytes_win() {
    let mut world = World::new();
    let e = world.spawn_with(vec![
        (POSITION, vec![1]),
        (VELOCITY, vec![2]),
        (HEALTH, vec![3]),
        (4, vec![4, 4]),
        (VELOCITY, vec![9]),
    ]);
    assert!(world.is_valid(e));
    assert_eq!(world.get_component(e, POSITION).unwrap(), &vec![1u8]);
    assert_eq!(world.get_component(e, VELOCITY).unwrap(), &vec![9u8]);
    assert_eq!(world.get_component(e, 4).unwrap(), &vec![4u8, 4]);
    assert!(world.get_component(e, 5).is_none());
    assert_eq!(world.query2(POSITION, HEALTH).len(), 1);
}

#[test]
fn keyed_new_hands_out_slots_from_zero() {
    let mut world = World::new();
    let a = world.spawn();
    let b = world.spawn();
    assert_eq!((a.index(), a.generation()), (0, 0));
    assert_eq!((b.index(), b.generation()), (1, 0));
    assert!(world.despawn(b));
    let c = world.spawn();
    assert_eq!((c.index(), c.generation()), (1, 1));
}
