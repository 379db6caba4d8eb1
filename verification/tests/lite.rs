use latch::lite::archetype::Archetype;
use latch::lite::component::{ComponentMeta, ComponentTable};
use latch::lite::entity::EntityBuilder;
use latch::lite::world::World;

fn table() -> ComponentTable {
    let mut t = ComponentTable::new();
    t.register_component(ComponentMeta { id: 1, name: "Stats".to_string(), size: 6, align: 2 });
    t.register_component(ComponentMeta { id: 2, name: "Health".to_string(), size: 8, align: 4 });
    t
}

fn stats(a: u8) -> Vec<u8> {
    vec![a, 0, a, 0, a, 0]
}

#[test]
fn builder_sorts_and_replaces_components() {
    let b = EntityBuilder::new()
        .with_raw(2, vec![9; 8], 8)
        .with_raw(1, stats(1), 6)
        .with_raw(2, vec![7; 8], 8);
    let a = b.archetype();
    assert_eq!(a.components, vec![1, 2]);
    assert_eq!(a, Archetype::from_components(vec![2, 1, 2]));
    let comps = b.into_components();
    assert_eq!(comps, vec![(1, stats(1)), (2, vec![7; 8])]);
}

#[test]
fn spawned_entities_get_ids_rows_and_bytes() {
    let t = table();
    let mut w = World::new();
    let e1 = w.try_spawn(&t, EntityBuilder::new().with_raw(1, stats(3), 6).with_raw(2, vec![1; 8], 8)).unwrap();
    let e2 = w.try_spawn(&t, EntityBuilder::new().with_raw(2, vec![2; 8], 8).with_raw(1, stats(4), 6)).unwrap();
    assert_eq!((e1.id, e1.index), (1, 0));
    assert_eq!((e2.id, e2.index), (2, 1));
    assert_eq!(e1.archetype, e2.archetype);
    assert_eq!(w.archetypes_with(2), vec![e1.archetype]);
    assert_eq!(w.archetypes_with(5), Vec::<u64>::new());
    let raw = w.components_of_entity_raw(e2);
    assert_eq!(raw.len(), 2);
    assert_eq!((raw[0].cid, raw[0].bytes), (1, &stats(4)[..]));
    assert_eq!((raw[1].cid, raw[1].bytes), (2, &[2u8; 8][..]));
    let st = w.archetypes()[0];
    assert_eq!(st.len(), 2);
    assert_eq!(st.entity_at(1), Some(2));
}

#[test]
fn despawned_rows_are_reused() {
    let t = table();
    let mut w = World::new();
    let e1 = w.try_spawn(&t, EntityBuilder::new().with_raw(1, stats(1), 6)).unwrap();
    let _e2 = w.try_spawn(&t, EntityBuilder::new().with_raw(1, stats(2), 6)).unwrap();
    w.despawn(e1);
    assert_eq!(w.archetypes()[0].len(), 1);
    assert_eq!(w.archetypes()[0].entity_at(0), None);
    let e3 = w.try_spawn(&t, EntityBuilder::new().with_raw(1, stats(5), 6)).unwrap();
    assert_eq!((e3.id, e3.index), (3, 0));
    assert_eq!(w.archetypes()[0].row_bytes(1, 0), Some(&stats(5)[..]));
}

#[test]
fn spawn_is_refused_for_unregistered_or_missized_components() {
    let t = table();
    let mut w = World::default();
    assert!(w.try_spawn(&t, EntityBuilder::new().with_raw(9, vec![0; 4], 4)).is_none());
    assert!(w.try_spawn(&t, EntityBuilder::new().with_raw(1, vec![0; 4], 4)).is_none());
    assert!(w.archetypes().is_empty());
    let e = w.try_spawn(&t, EntityBuilder::new().with_raw(1, stats(0), 6)).unwrap();
    assert_eq!(e.id, 0);
}

#[test]
fn components_and_columns_read_back_as_bytes() {
    let t = table();
    let mut w = World::new();
    let e1 = w.try_spawn(&t, EntityBuilder::new().with_raw(1, stats(3), 6).with_raw(2, vec![1; 8], 8)).unwrap();
    let e2 = w.try_spawn(&t, EntityBuilder::new().with_raw(1, stats(4), 6).with_raw(2, vec![2; 8], 8)).unwrap();
    assert_eq!(w.get_component(e2, 1), Some(&stats(4)[..]));
    assert_eq!(w.get_component(e1, 2), Some(&[1u8; 8][..]));
    assert_eq!(w.get_component(e1, 7), None);
    let mut both = stats(3);
    both.extend_from_slice(&stats(4));
    assert_eq!(w.column(e1.archetype, 1), Some(&both[..]));
    assert_eq!(w.column(e1.archetype, 9), None);
    assert_eq!(w.column(e1.archetype.wrapping_add(1), 1), None);
    assert_eq!(w.archetypes()[0].column_as_slice(2).map(|b| b.len()), Some(16));
}
