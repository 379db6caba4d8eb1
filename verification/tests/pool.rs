use latch::pool::page::Page;
use latch::pool::paged_pool::PoolError;
use latch::pool::sort::{dedup_sorted, sort_dedup_pairs, sort_indices};
use latch::pool::PagedPool;

fn filled_pool(rows_per_page: usize, values: &[u32]) -> PagedPool<u32> {
    let mut pool = PagedPool::with_rows_per_page(rows_per_page);
    for &v in values {
        let g = pool.alloc_one();
        pool.write_at(g, v);
    }
    pool
}

#[test]
fn page_alloc_write_get_and_swap_remove() {
    let mut page: Page<u32> = Page::with_capacity(3);
    assert_eq!(page.capacity(), 3);
    assert_eq!(page.alloc_one(), Some(0));
    assert_eq!(page.alloc_one(), Some(1));
    page.write_at(0, 10);
    page.write_at(1, 11);
    assert_eq!(page.get(1), Ok(&11));
    assert_eq!(page.get(5), Err(PoolError::IndexOutOfBounds { index: 5, len: 2 }));
    assert_eq!(page.alloc_bulk(1), Some(2..3));
    assert!(page.is_full());
    assert_eq!(page.alloc_one(), None);
    assert_eq!(page.alloc_bulk(1), None);
    page.write_at(2, 12);
    assert_eq!(page.free_one(0), Ok(Some((2, 0))));
    assert_eq!(page.get(0), Ok(&12));
    assert_eq!(page.len(), 2);
    assert_eq!(page.free_one(1), Ok(None));
    assert_eq!(page.free_one(4), Err(PoolError::IndexOutOfBounds { index: 4, len: 1 }));
    page.clear();
    assert_eq!(page.len(), 0);
}

#[test]
fn pool_rows_fill_pages_in_order() {
    let pool = filled_pool(4, &[10, 11, 12, 13, 14, 15]);
    assert_eq!(pool.rows_per_page(), 4);
    assert_eq!(pool.len_total(), 6);
    assert_eq!(pool.page_count(), 2);
    assert_eq!(pool.get(5), Ok(&15));
    assert_eq!(pool.get(0), Ok(&10));
    assert_eq!(pool.get(9), Err(PoolError::IndexOutOfBounds { index: 9, len: 6 }));
    assert!(!pool.is_empty());
}

#[test]
fn pool_bulk_allocation_spans_never_cross_pages() {
    let mut pool = filled_pool(4, &[1]);
    let spans = pool.alloc_bulk(6);
    assert_eq!(spans, vec![1..4, 4..7]);
    assert_eq!(pool.len_total(), 7);
}

#[test]
fn pool_slices_stay_inside_one_page() {
    let pool = filled_pool(4, &[0, 1, 2, 3, 4, 5]);
    assert_eq!(pool.slice_tile(1..3), Ok(vec![1, 2]));
    assert_eq!(pool.slice_tile(4..6), Ok(vec![4, 5]));
    assert_eq!(pool.slice_tile(3..5), Err(PoolError::RangeCrossesPage { start: 3, end: 5, rows_per_page: 4 }));
    assert_eq!(pool.slice_tile(5..9), Err(PoolError::RangeOutOfBounds { start: 5, end: 9, len: 6 }));
}

#[test]
fn pool_swap_remove_moves_last_row_of_the_pool() {
    let mut pool = filled_pool(4, &[0, 1, 2, 3, 4]);
    assert_eq!(pool.free_one_swap_remove(1), Ok(Some((4, 1))));
    assert_eq!(pool.get(1), Ok(&4));
    assert_eq!(pool.len_total(), 4);
    assert_eq!(pool.free_one_swap_remove(9), Err(PoolError::PageMissing { page: 2 }));
    assert_eq!(pool.free_one_swap_remove(3), Ok(None));
    assert_eq!(pool.len_total(), 3);
}

#[test]
fn pool_acts_like_a_contiguous_array() {
    let mut pool: PagedPool<u32> = PagedPool::with_rows_per_page(2);
    assert_eq!(pool.alloc_bulk(3), vec![0..2, 2..3]);
    pool.write_at(0, 10);
    pool.write_at(1, 11);
    pool.write_at(2, 12);
    assert_eq!(pool.free_one_swap_remove(0), Ok(Some((2, 0))));
    assert_eq!(pool.len_total(), 2);
    assert_eq!(pool.get(0), Ok(&12));
    assert_eq!(pool.get(1), Ok(&11));
    assert_eq!(pool.page_count(), 2);
    assert_eq!(pool.alloc_one(), 2);
    pool.write_at(2, 13);
    assert_eq!(pool.page_count(), 2);
    assert_eq!(pool.free_one_swap_remove(0), Ok(Some((2, 0))));
    assert_eq!(pool.free_one_swap_remove(1), Ok(None));
    assert_eq!(pool.get(0), Ok(&13));
    assert_eq!(pool.page_count(), 1);
    assert_eq!(pool.alloc_one(), 1);
    assert_eq!(pool.page_count(), 1);
}

#[test]
fn pool_bulk_swap_remove_works_across_pages() {
    let mut pool = filled_pool(2, &[0, 1, 2, 3, 4]);
    let mut moved = Vec::new();
    assert_eq!(pool.free_bulk_swap_remove(vec![0, 3], &mut moved), Ok(()));
    assert_eq!(moved, vec![(4, 3), (3, 0)]);
    assert_eq!(pool.len_total(), 3);
    assert_eq!(pool.get(0), Ok(&4));
    assert_eq!(pool.get(1), Ok(&1));
    assert_eq!(pool.get(2), Ok(&2));
    let mut none = Vec::new();
    assert_eq!(pool.free_bulk_swap_remove(vec![0, 12], &mut none), Err(PoolError::PageMissing { page: 6 }));
    assert!(none.is_empty());
    assert_eq!(pool.len_total(), 3);
    assert_eq!(pool.free_bulk_swap_remove(vec![2, 2, 0], &mut none), Ok(()));
    assert_eq!(none, vec![(1, 0)]);
    assert_eq!(pool.len_total(), 1);
    assert_eq!(pool.get(0), Ok(&1));
}

#[test]
fn pool_bulk_swap_remove_reports_moves() {
    let mut pool = filled_pool(8, &[0, 1, 2, 3, 4, 5]);
    let mut moved = Vec::new();
    assert_eq!(pool.free_bulk_swap_remove(vec![1, 0], &mut moved), Ok(()));
    assert_eq!(pool.len_total(), 4);
    let mut rest = Vec::new();
    for g in 0..4 {
        rest.push(*pool.get(g).unwrap());
    }
    rest.sort();
    assert_eq!(rest, vec![2, 3, 4, 5]);
    assert!(!moved.is_empty());
}

#[test]
fn pool_set_at_overwrites_a_written_row() {
    let mut pool = filled_pool(4, &[7, 8]);
    assert_eq!(pool.set_at(1, 9), Ok(()));
    assert_eq!(pool.get(1), Ok(&9));
    pool.clear();
    assert!(pool.is_empty());
}

#[test]
fn sort_and_dedup_indices() {
    let mut v = vec![5, 1, 3, 1, 5, 0];
    sort_indices(&mut v);
    assert_eq!(v, vec![0, 1, 1, 3, 5, 5]);
    assert_eq!(dedup_sorted(&v), vec![0, 1, 3, 5]);
    assert_eq!(sort_dedup_pairs(&vec![(2, 1), (0, 5), (2, 1), (0, 3)]), vec![(0, 3), (0, 5), (2, 1)]);
}
