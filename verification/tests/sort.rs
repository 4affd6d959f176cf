use ooc_sort::chunk::Chunk;
use ooc_sort::error::SinkError;
use ooc_sort::memory::exceeds_budget;
use ooc_sort::memory::MemTracker;
use ooc_sort::row::key_precedes;
use ooc_sort::row::Row;
use ooc_sort::sort::slice_bounds;
use ooc_sort::sort::slice_rows;
use ooc_sort::sort::sort_accumulated;
use ooc_sort::sort::sort_chunk;
use ooc_sort::sort::sort_keys;
use ooc_sort::spill::SpillStore;

fn rows(keys: &[Option<i64>]) -> Vec<Row> {
    keys.iter().enumerate().map(|(i, k)| Row::new(vec![*k, Some(i as i64)])).collect()
}

fn tags(rows: &[Row]) -> Vec<i64> {
    rows.iter().map(|r| r.cells[1].unwrap()).collect()
}

#[test]
fn key_order_places_nulls() {
    assert!(key_precedes(None, Some(i64::MIN), false, false));
    assert!(!key_precedes(Some(i64::MIN), None, false, false));
    assert!(!key_precedes(None, Some(0), false, true));
    assert!(key_precedes(Some(0), None, true, true));
    assert!(key_precedes(None, None, true, true));
    assert!(key_precedes(Some(1), Some(2), false, false));
    assert!(!key_precedes(Some(2), Some(1), false, false));
    assert!(key_precedes(Some(2), Some(1), true, false));
    assert!(key_precedes(Some(2), Some(2), true, false));
}

#[test]
fn sort_accumulated_puts_nulls_first_and_is_stable() {
    let df = Chunk::from_rows(2, rows(&[Some(2), None, Some(1), Some(2), None, Some(1)])).unwrap();
    let sorted = sort_accumulated(df, 0, false, None).unwrap();
    assert_eq!(tags(&sorted.rows), vec![1, 4, 2, 5, 0, 3]);
    let df = Chunk::from_rows(2, rows(&[Some(2), None, Some(1), Some(2), None, Some(1)])).unwrap();
    let sorted = sort_accumulated(df, 0, true, None).unwrap();
    assert_eq!(tags(&sorted.rows), vec![1, 4, 0, 3, 2, 5]);
}

#[test]
fn sort_accumulated_cuts_the_slice() {
    let make = || Chunk::from_rows(2, rows(&[Some(5), Some(3), Some(4), Some(1), Some(2)])).unwrap();
    let cut = |slice| tags(&sort_accumulated(make(), 0, false, Some(slice)).unwrap().rows);
    assert_eq!(cut((0, 2)), vec![3, 4]);
    assert_eq!(cut((1, 3)), vec![4, 1, 2]);
    assert_eq!(cut((4, 10)), vec![0]);
    assert_eq!(cut((5, 10)), Vec::<i64>::new());
    assert_eq!(cut((9, 1)), Vec::<i64>::new());
    assert_eq!(cut((-2, 5)), vec![2, 0]);
    assert_eq!(cut((-2, 1)), vec![2]);
    assert_eq!(cut((-9, 2)), vec![3, 4]);
    assert_eq!(cut((0, 0)), Vec::<i64>::new());
}

#[test]
fn sort_chunk_by_other_column() {
    let df = Chunk::from_rows(2, rows(&[Some(9), Some(8), Some(7)])).unwrap();
    let sorted = sort_chunk(df, 1, true, false);
    assert_eq!(tags(&sorted.rows), vec![2, 1, 0]);
    assert_eq!(sort_chunk(Chunk::empty(4), 3, false, false).height(), 0);
}

#[test]
fn slice_bounds_exact() {
    assert_eq!(slice_bounds(0, 3, 10), (0, 3));
    assert_eq!(slice_bounds(8, 5, 10), (8, 2));
    assert_eq!(slice_bounds(10, 5, 10), (10, 0));
    assert_eq!(slice_bounds(11, 5, 10), (10, 0));
    assert_eq!(slice_bounds(-3, 2, 10), (7, 2));
    assert_eq!(slice_bounds(-3, 9, 10), (7, 3));
    assert_eq!(slice_bounds(-10, 4, 10), (0, 4));
    assert_eq!(slice_bounds(-11, 4, 10), (0, 4));
    assert_eq!(slice_bounds(-11, 40, 10), (0, 10));
    assert_eq!(slice_bounds(i64::MIN, usize::MAX, 10), (0, 10));
    assert_eq!(slice_bounds(i64::MAX, usize::MAX, 10), (10, 0));
    assert_eq!(slice_bounds(0, usize::MAX, 0), (0, 0));
}

#[test]
fn slice_rows_without_slice_keeps_all() {
    let all = rows(&[Some(1), Some(2)]);
    assert_eq!(slice_rows(all.clone(), None), all);
    assert_eq!(slice_rows(all.clone(), Some((1, 1))), vec![all[1].clone()]);
}

#[test]
fn sort_keys_orders_the_sample() {
    let sample = vec![Some(3), None, Some(-1), Some(3), None];
    assert_eq!(sort_keys(&sample, false, false), vec![None, None, Some(-1), Some(3), Some(3)]);
    assert_eq!(sort_keys(&sample, false, true), vec![Some(-1), Some(3), Some(3), None, None]);
    assert_eq!(sort_keys(&sample, true, false), vec![None, None, Some(3), Some(3), Some(-1)]);
    assert_eq!(sort_keys(&sample, true, true), vec![Some(3), Some(3), Some(-1), None, None]);
    assert_eq!(sort_keys(&vec![], true, true), Vec::<Option<i64>>::new());
}

#[test]
fn chunk_from_rows_checks_widths() {
    assert!(Chunk::from_rows(2, rows(&[Some(1)])).is_some());
    assert!(Chunk::from_rows(3, rows(&[Some(1)])).is_none());
    assert!(Chunk::from_rows(3, vec![]).is_some());
    let mixed = vec![Row::new(vec![None]), Row::new(vec![None, None])];
    assert!(Chunk::from_rows(1, mixed).is_none());
}

#[test]
fn estimated_size_counts_cells() {
    assert_eq!(Chunk::empty(7).estimated_size(), 0);
    assert_eq!(Chunk::from_rows(2, rows(&[Some(1), Some(2), Some(3)])).unwrap().estimated_size(), 96);
    assert_eq!(Chunk::from_rows(0, vec![Row::new(vec![])]).unwrap().estimated_size(), 0);
}

#[test]
fn first_key_is_of_first_row() {
    let df = Chunk::from_rows(2, rows(&[None, Some(2)])).unwrap();
    assert_eq!(df.first_key(0), Some(None));
    assert_eq!(df.first_key(1), Some(Some(0)));
    assert_eq!(Chunk::empty(2).first_key(1), None);
}

#[test]
fn budget_is_three_to_one() {
    assert!(!exceeds_budget(0, 0));
    assert!(exceeds_budget(1, 0));
    assert!(exceeds_budget(1, 2));
    assert!(!exceeds_budget(1, 3));
    assert!(!exceeds_budget(33, 99));
    assert!(exceeds_budget(34, 100));
    assert!(!exceeds_budget(usize::MAX / 3, usize::MAX));
    assert!(exceeds_budget(usize::MAX / 3 + 1, usize::MAX));
    assert!(exceeds_budget(usize::MAX, usize::MAX));
}

#[test]
fn tracker_adds_and_saturates() {
    let mut tracker = MemTracker::new(2, 1000);
    assert_eq!(tracker.get_available(), 1000);
    assert_eq!(tracker.fetch_add(10), 10);
    assert_eq!(tracker.fetch_add(5), 15);
    assert_eq!(tracker.get_used(), 15);
    assert_eq!(tracker.fetch_add(usize::MAX), usize::MAX);
    assert_eq!(tracker.fetch_add(1), usize::MAX);
    tracker.refresh(7);
    assert_eq!(tracker.get_available(), 7);
    assert_eq!(tracker.get_used(), usize::MAX);
}

#[test]
fn tracker_refresh_is_due_once_per_interval() {
    let mut tracker = MemTracker::new(2, 0);
    let due: Vec<usize> = (0..300).filter(|_| tracker.refresh_due()).collect();
    assert_eq!(due, vec![0, 128, 256]);
    let mut single = MemTracker::new(0, 0);
    assert!(single.refresh_due());
    assert!(single.refresh_due());
}

#[test]
fn spill_store_counts_writes() {
    let mut store = SpillStore::new(2, "sort");
    assert!(store.is_drained());
    assert!(store.next_unwritten().is_none());
    store.dump_chunk(Chunk::from_rows(2, rows(&[Some(1)])).unwrap());
    store.dump_chunk(Chunk::from_rows(2, rows(&[Some(2)])).unwrap());
    assert!(!store.is_drained());
    assert_eq!(store.next_unwritten().unwrap().rows[0].cells[0], Some(1));
    store.mark_written();
    assert_eq!(store.next_unwritten().unwrap().rows[0].cells[0], Some(2));
    store.mark_written();
    store.mark_written();
    assert!(store.is_drained());
    assert!(!store.has_failed());
    store.mark_failed();
    assert!(store.has_failed());
    assert_eq!(store.spilled_runs().len(), 2);
    let runs = store.take_runs();
    assert_eq!(runs.len(), 2);
    assert_eq!(store.run_count(), 0);
    assert!(store.is_drained());
}

#[test]
fn error_messages_differ() {
    assert_eq!(SinkError::SpillUnavailable.message(), "no scratch space to spill to");
    assert_eq!(SinkError::SpillFailed.message(), "a spilled chunk could not be written");
    assert_eq!(SinkError::SpillPending.message(), "spilled chunks are still waiting to be written");
}
