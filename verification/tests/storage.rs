use latch::ecs::storage::column::ColumnError;
use latch::ecs::archetype::ArchetypeLayout;
use latch::ecs::component::{register_component, ComponentRegistry};
use latch::ecs::storage::archetype_storage::{ArchetypeStorage, StorageError};
use latch::ecs::storage::Column;
use latch::ecs::storage::plan::{compute_rows_per_page, floor_power_of_two, plan_archetype, PageBudget, PlanError};
use latch::lite::archetype::Archetype;
use latch::lite::component::{ComponentMeta, ComponentTable};
use latch::paging::page::Page as SlotPage;
use latch::pool::PoolError;

fn storage(l2: usize) -> ArchetypeStorage {
    let mut reg = ComponentRegistry::new();
    let pos = register_component(&mut reg, "Position", 8, 4, 8, true, Vec::new());
    let plan = plan_archetype(&reg, ArchetypeLayout::new(vec![pos.id]), PageBudget::with_l2_bytes(l2)).unwrap();
    ArchetypeStorage::from_plan(plan)
}

#[test]
fn rows_per_page_is_largest_power_of_two_in_budget() {
    assert_eq!(floor_power_of_two(1), 1);
    assert_eq!(floor_power_of_two(100), 64);
    assert_eq!(compute_rows_per_page(12, 1024), 64);
    assert_eq!(compute_rows_per_page(4096, 1024), 1);
    // 4 bytes of entity id plus 8 bytes of position per row.
    assert_eq!(storage(48).rows_per_page(), 4);
}

#[test]
fn plan_refuses_unregistered_component() {
    let reg = ComponentRegistry::new();
    let r = plan_archetype(&reg, ArchetypeLayout::new(vec![3]), PageBudget::with_l2_bytes(1024));
    assert!(matches!(r, Err(PlanError::ComponentNotRegistered { component_id: 3 })));
}

#[test]
fn bulk_allocation_writes_ids_in_order_across_pages() {
    let mut st = storage(48);
    let first = st.alloc_row(100).unwrap();
    assert_eq!(first, 0);
    let spans = st.alloc_bulk(5, &[1, 2, 3, 4, 5, 6]).unwrap();
    assert_eq!(spans, vec![1..4, 4..6]);
    assert_eq!(st.entity_count(), 6);
    assert_eq!(st.entity_id_at(0), Ok(100));
    assert_eq!(st.entity_id_at(3), Ok(3));
    assert_eq!(st.entity_id_at(5), Ok(5));
    assert_eq!(st.columns()[0].len(), 6);
    assert_eq!(st.entity_ids_slice(4..6), Ok(vec![4, 5]));
}

#[test]
fn bulk_allocation_with_too_few_ids_is_refused() {
    let mut st = storage(1024);
    let r = st.alloc_bulk(4, &[1, 2]);
    assert_eq!(r, Err(StorageError::NotEnoughEntities { expected: 4, got: 2 }));
    assert_eq!(st.entity_count(), 0);
    assert!(st.is_empty());
}

#[test]
fn entity_id_past_the_end_is_refused() {
    let mut st = storage(1024);
    st.alloc_row(9).unwrap();
    assert_eq!(st.entity_id_at(3), Err(StorageError::EntityPool(PoolError::IndexOutOfBounds { index: 3, len: 1 })));
}

#[test]
fn archetype_set_ignores_order_and_duplicates() {
    let a = Archetype::from_components(vec![3, 1, 2, 3]);
    let b = Archetype::from_components(vec![2, 1, 3]);
    assert_eq!(a.components, vec![1, 2, 3]);
    assert_eq!(a, b);
    assert!(a.contains(2));
    assert!(!a.contains(7));
    assert_eq!(ArchetypeLayout::new(vec![3, 1, 2]).id(), a.id);
}

#[test]
fn component_table_records_by_id() {
    let mut t = ComponentTable::new();
    assert!(t.meta_of(4).is_none());
    t.register_component(ComponentMeta { id: 4, name: "Health".to_string(), size: 8, align: 4 });
    let m = t.meta_of(4).unwrap();
    assert_eq!(m.name, "Health");
    assert_eq!(m.size, 8);
    t.register_component(ComponentMeta { id: 4, name: "Hp".to_string(), size: 8, align: 4 });
    assert_eq!(t.meta_of(4).unwrap().name, "Hp");
}

#[test]
fn slot_page_hands_out_from_its_free_list() {
    let mut p: SlotPage<u32> = SlotPage::with_capacity(2);
    assert!(!p.empty());
    let q: SlotPage<u8> = SlotPage::new();
    assert!(!q.empty());
    p.free(5);
    assert!(!p.empty());
    let none: SlotPage<u32> = SlotPage::with_capacity(0);
    assert!(none.empty());
}

#[test]
fn column_mut_of_missing_component_is_refused() {
    let mut st = storage(1024);
    assert!(matches!(st.column_mut(99), Err(StorageError::ColumnMissing { component_id: 99 })));
}

#[test]
fn typed_column_allocates_the_same_rows_in_both_buffers() {
    let mut c: Column<u32> = Column::with_rows_per_page(2);
    assert!(c.is_empty());
    assert_eq!(c.rows_per_page(), 2);
    assert_eq!(c.alloc_one(), 0);
    assert_eq!(c.alloc_bulk(3), vec![1..2, 2..4]);
    assert_eq!(c.len_total(), 4);
    assert_eq!(c.clamp_to_page(2, 5), 2..4);
    c.init_both_at(0, 10, 11);
    c.init_both_at(1, 20, 21);
    c.init_cur_at(2, 30);
    c.init_next_at(2, 31);
    c.init_both_at(3, 40, 41);
    assert_eq!(c.slice_read(0..2), Ok(vec![10, 20]));
    assert_eq!(c.slice_read(1..3), Err(PoolError::RangeCrossesPage { start: 1, end: 3, rows_per_page: 2 }));
    c.swap_buffers();
    assert_eq!(c.slice_read(2..4), Ok(vec![31, 41]));
}

#[test]
fn typed_column_removes_rows_from_both_buffers() {
    let mut c: Column<u32> = Column::with_rows_per_page(4);
    c.alloc_bulk(4);
    for i in 0..4usize {
        c.init_both_at(i, i as u32, 100 + i as u32);
    }
    assert_eq!(c.free_one_swap_remove(1), Ok(Some((3, 1))));
    assert_eq!(c.slice_read(0..3), Ok(vec![0, 3, 2]));
    assert_eq!(c.free_one_swap_remove(9), Err(PoolError::PageMissing { page: 2 }));
    assert_eq!(c.free_bulk_swap_remove(vec![0]), Ok(vec![(2, 0)]));
    assert_eq!(c.len_total(), 2);
    c.swap_buffers();
    assert_eq!(c.slice_read(0..2), Ok(vec![102, 103]));
    assert_eq!(c.free_bulk_swap_remove(vec![]), Ok(vec![]));
    assert_eq!(c.free_bulk_swap_remove(vec![0, 12]), Err(PoolError::PageMissing { page: 3 }));
}

#[test]
fn write_next_range_spans_pages_and_reads_back_after_swap() {
    let mut st = storage(48);
    st.alloc_bulk(6, &[1, 2, 3, 4, 5, 6]).unwrap();
    let bytes: Vec<u8> = (0u8..24).collect();
    assert_eq!(st.write_next_range(0, 2..5, &bytes), Ok(()));
    assert_eq!(
        st.write_next_range(0, 2..5, &bytes[..8]),
        Err(StorageError::Column(ColumnError::StrideMismatch { expected: 24, got: 8 }))
    );
    assert_eq!(
        st.write_next_range(0, 4..9, &bytes),
        Err(StorageError::Column(ColumnError::RangeOutOfBounds { start: 4, end: 9, len: 6 }))
    );
    assert_eq!(st.write_next_range(7, 0..1, &bytes[..8]), Err(StorageError::ColumnMissing { component_id: 7 }));
    st.swap_buffers();
    let col = st.column(0).unwrap();
    assert_eq!(col.slice_read(2..4), Ok(&bytes[..16]));
    assert_eq!(col.slice_read(4..5), Ok(&bytes[16..24]));
    assert_eq!(col.slice_read(0..1), Ok(&[0u8; 8][..]));
}
