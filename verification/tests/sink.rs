use std::collections::VecDeque;

use ooc_sort::chunk::accumulate_vertical;
use ooc_sort::chunk::Chunk;
use ooc_sort::error::SinkError;
use ooc_sort::group::SinkGroup;
use ooc_sort::ooc::partition_index;
use ooc_sort::ooc::sort_ooc;
use ooc_sort::row::Row;
use ooc_sort::sink::FinalizedSink;
use ooc_sort::sink::SinkResult;
use ooc_sort::sink::SortArguments;
use ooc_sort::sink::SortSink;
use ooc_sort::sort::sort_with;

fn row(key: Option<i64>, tag: i64) -> Row {
    Row::new(vec![Some(tag), key])
}

/// A chunk of two columns: a tag that tells the rows apart, and the key.
fn chunk(keys: &[Option<i64>], first_tag: i64) -> Chunk {
    let rows: Vec<Row> = keys
        .iter()
        .enumerate()
        .map(|(i, k)| row(*k, first_tag + i as i64))
        .collect();
    Chunk::from_rows(2, rows).unwrap()
}

fn counted(n: i64, first_tag: i64, step: i64, modulus: i64) -> Chunk {
    let keys: Vec<Option<i64>> = (0..n).map(|i| Some((i * step + first_tag) % modulus)).collect();
    chunk(&keys, first_tag)
}

fn args(descending: bool, nulls_last: bool, slice: Option<(i64, usize)>) -> SortArguments {
    SortArguments { descending: vec![descending], nulls_last, slice }
}

fn keys_of(df: &Chunk) -> Vec<Option<i64>> {
    df.rows.iter().map(|r| r.cells[1]).collect()
}

fn tags_of(df: &Chunk) -> Vec<i64> {
    df.rows.iter().map(|r| r.cells[0].unwrap()).collect()
}

fn finished(res: Result<FinalizedSink, SinkError>) -> Chunk {
    match res {
        Ok(FinalizedSink::Finished(df)) => df,
        Err(e) => panic!("finalize failed: {}", e.message()),
    }
}

fn write_all(group: &mut SinkGroup) -> usize {
    let mut written = 0;
    while group.next_unwritten().is_some() {
        group.mark_written();
        written += 1;
    }
    written
}

fn run(chunks: Vec<Chunk>, force_ooc: bool, free: usize, a: SortArguments) -> Chunk {
    let mut group = SinkGroup::new(1, free, true);
    let mut sink = SortSink::new(1, a, 2, force_ooc, &mut group);
    for c in chunks {
        assert_eq!(sink.sink(&mut group, c), Ok(SinkResult::CanHaveMoreInput));
    }
    write_all(&mut group);
    finished(sink.finalize(&mut group))
}

#[test]
fn forced_ooc_three_chunks() {
    let mut group = SinkGroup::new(1, usize::MAX, true);
    let mut sink = SortSink::new(1, args(false, false, None), 2, true, &mut group);
    assert!(sink.is_ooc());
    assert!(group.has_spill());
    let first = counted(100, 0, 7, 101);
    let first_key = first.rows[0].cells[1];
    let third = counted(50, 1000, 13, 97);
    let third_key = third.rows[0].cells[1];
    assert_eq!(sink.sink(&mut group, first), Ok(SinkResult::CanHaveMoreInput));
    assert_eq!(sink.sink(&mut group, Chunk::empty(2)), Ok(SinkResult::CanHaveMoreInput));
    assert_eq!(sink.sink(&mut group, third), Ok(SinkResult::CanHaveMoreInput));
    assert_eq!(sink.sample(), &vec![first_key, third_key]);
    assert_eq!(group.store().unwrap().run_count(), 2);
    assert_eq!(sink.buffered_chunks(), 0);
    assert_eq!(write_all(&mut group), 2);
    let df = finished(sink.finalize(&mut group));
    assert_eq!(df.height(), 150);
    let keys = keys_of(&df);
    for i in 1..keys.len() {
        assert!(keys[i - 1].unwrap() <= keys[i].unwrap());
    }
    let mut tags = tags_of(&df);
    tags.sort();
    let mut expected: Vec<i64> = (0..100).chain(1000..1050).collect();
    expected.sort();
    assert_eq!(tags, expected);
}

#[test]
fn combine_flushes_inherited_chunks_once() {
    // Each chunk counts 3 rows * 2 cells * 16 bytes = 96 bytes. With 600
    // bytes free the group is over its budget once 3 * used > 600, so at the
    // third chunk.
    let mut group = SinkGroup::new(2, 600, true);
    let mut left = SortSink::new(1, args(false, false, None), 2, false, &mut group);
    let mut right = left.split(1);
    left.sink(&mut group, chunk(&[Some(5), Some(1), Some(9)], 0)).unwrap();
    right.sink(&mut group, chunk(&[Some(4), Some(8), Some(2)], 10)).unwrap();
    assert!(!left.is_ooc());
    assert!(!right.is_ooc());
    assert!(!group.has_spill());
    right.sink(&mut group, chunk(&[Some(7), Some(3), Some(6)], 20)).unwrap();
    assert!(right.is_ooc());
    assert!(!left.is_ooc());
    assert_eq!(group.store().unwrap().run_count(), 2);
    assert_eq!(left.buffered_chunks(), 1);

    left.combine(&mut right, &mut group);
    assert!(left.is_ooc());
    assert_eq!(left.buffered_chunks(), 0);
    assert_eq!(right.buffered_chunks(), 0);
    assert_eq!(group.store().unwrap().run_count(), 3);
    // The sample of the sibling comes first, then the key of the chunk that
    // the combined sink spilled itself.
    assert_eq!(left.sample(), &vec![Some(4), Some(7), Some(5)]);
    assert!(right.sample().is_empty());

    write_all(&mut group);
    let df = finished(left.finalize(&mut group));
    assert_eq!(
        keys_of(&df),
        vec![Some(1), Some(2), Some(3), Some(4), Some(5), Some(6), Some(7), Some(8), Some(9)]
    );
    assert_eq!(tags_of(&df), vec![1, 12, 21, 10, 0, 22, 20, 11, 2]);
}

#[test]
fn combine_in_memory_keeps_buffers() {
    let mut group = SinkGroup::new(2, usize::MAX, true);
    let mut left = SortSink::new(1, args(false, false, None), 2, false, &mut group);
    let mut right = left.split(1);
    left.sink(&mut group, chunk(&[Some(3)], 0)).unwrap();
    right.sink(&mut group, chunk(&[Some(1)], 10)).unwrap();
    left.combine(&mut right, &mut group);
    assert!(!left.is_ooc());
    assert_eq!(left.buffered_chunks(), 2);
    assert_eq!(right.buffered_chunks(), 0);
    assert!(!group.has_spill());
    let df = finished(left.finalize(&mut group));
    assert_eq!(tags_of(&df), vec![10, 0]);
}

#[test]
fn finalize_without_chunks_is_empty() {
    let mut group = SinkGroup::new(1, 1024, true);
    let mut sink = SortSink::new(0, args(false, false, None), 3, false, &mut group);
    let df = finished(sink.finalize(&mut group));
    assert_eq!(df.height(), 0);
    assert_eq!(df.width(), 3);
}

#[test]
fn finalize_without_chunks_out_of_core_is_empty() {
    let mut group = SinkGroup::new(1, 1024, true);
    let mut sink = SortSink::new(0, args(true, true, Some((0, 10))), 3, true, &mut group);
    assert!(sink.sample().is_empty());
    let df = finished(sink.finalize(&mut group));
    assert_eq!(df.height(), 0);
    assert_eq!(df.width(), 3);
}

#[test]
fn second_flush_spills_nothing() {
    let mut group = SinkGroup::new(1, 0, true);
    let mut sink = SortSink::new(1, args(false, false, None), 2, false, &mut group);
    sink.sink(&mut group, chunk(&[Some(2), Some(1)], 0)).unwrap();
    assert!(sink.is_ooc());
    assert_eq!(group.store().unwrap().run_count(), 1);
    assert_eq!(sink.sample(), &vec![Some(2)]);
    sink.dump(&mut group);
    sink.dump(&mut group);
    assert_eq!(group.store().unwrap().run_count(), 1);
    assert_eq!(sink.sample(), &vec![Some(2)]);
    sink.sink(&mut group, Chunk::empty(2)).unwrap();
    assert_eq!(group.store().unwrap().run_count(), 1);
    assert_eq!(sink.sample(), &vec![Some(2)]);
}

#[test]
fn mode_stays_out_of_core() {
    let mut group = SinkGroup::new(1, 100, true);
    let mut sink = SortSink::new(1, args(false, false, None), 2, false, &mut group);
    // 2 rows * 2 cells * 16 bytes = 64 bytes; 3 * 64 > 100.
    sink.sink(&mut group, chunk(&[Some(2), Some(1)], 0)).unwrap();
    assert!(sink.is_ooc());
    // Memory is free again: the sink stays out of core all the same.
    group.refresh(usize::MAX);
    sink.sink(&mut group, chunk(&[Some(0)], 2)).unwrap();
    assert!(sink.is_ooc());
    assert_eq!(sink.buffered_chunks(), 0);
    assert_eq!(group.store().unwrap().run_count(), 2);
    let sibling = sink.split(3);
    assert!(sibling.is_ooc());
    let mut fresh = SortSink::new(1, args(false, false, None), 2, false, &mut group);
    let mut gone = sink;
    fresh.combine(&mut gone, &mut group);
    assert!(fresh.is_ooc());
    assert!(gone.is_ooc());
}

#[test]
fn threshold_is_three_times_used() {
    // One row of two cells counts 32 bytes.
    let mut group = SinkGroup::new(1, 96, true);
    let mut sink = SortSink::new(1, args(false, false, None), 2, false, &mut group);
    sink.sink(&mut group, chunk(&[Some(1)], 0)).unwrap();
    // 3 * 32 = 96 is not more than 96.
    assert!(!sink.is_ooc());
    let mut group = SinkGroup::new(1, 95, true);
    let mut sink = SortSink::new(1, args(false, false, None), 2, false, &mut group);
    sink.sink(&mut group, chunk(&[Some(1)], 0)).unwrap();
    assert!(sink.is_ooc());
}

#[test]
fn empty_chunk_never_trips_the_threshold_alone() {
    let mut group = SinkGroup::new(1, 0, true);
    let mut sink = SortSink::new(1, args(false, false, None), 2, false, &mut group);
    sink.sink(&mut group, Chunk::empty(2)).unwrap();
    assert!(!sink.is_ooc());
    assert_eq!(sink.buffered_chunks(), 1);
    assert!(!group.has_spill());
}

#[test]
fn sink_fails_without_scratch_space() {
    let mut group = SinkGroup::new(1, 0, false);
    let mut sink = SortSink::new(1, args(false, false, None), 2, false, &mut group);
    assert_eq!(sink.sink(&mut group, chunk(&[Some(1)], 0)), Err(SinkError::SpillUnavailable));
    assert!(!sink.is_ooc());
    assert_eq!(sink.buffered_chunks(), 0);
    assert!(!group.has_spill());
}

#[test]
fn finalize_fails_on_failed_write() {
    let mut group = SinkGroup::new(1, 0, true);
    let mut sink = SortSink::new(1, args(false, false, None), 2, true, &mut group);
    sink.sink(&mut group, chunk(&[Some(1)], 0)).unwrap();
    group.mark_failed();
    write_all(&mut group);
    assert!(matches!(sink.finalize(&mut group), Err(SinkError::SpillFailed)));
}

#[test]
fn finalize_fails_while_writes_are_pending() {
    let mut group = SinkGroup::new(1, 0, true);
    let mut sink = SortSink::new(1, args(false, false, None), 2, true, &mut group);
    sink.sink(&mut group, chunk(&[Some(1)], 0)).unwrap();
    assert!(!group.spill_drained());
    assert!(matches!(sink.finalize(&mut group), Err(SinkError::SpillPending)));
    group.mark_written();
    assert!(group.spill_drained());
    let df = finished(sink.finalize(&mut group));
    assert_eq!(keys_of(&df), vec![Some(1)]);
}

#[test]
fn out_of_core_equals_in_memory() {
    let keys: Vec<Vec<Option<i64>>> = vec![
        vec![Some(5), None, Some(-3), Some(5), Some(0)],
        vec![],
        vec![Some(7), Some(5), None, Some(-3)],
        vec![Some(i64::MAX), Some(i64::MIN), Some(5)],
    ];
    for descending in [false, true] {
        for nulls_last in [false, true] {
            for slice in [None, Some((0, 4)), Some((3, 100)), Some((-5, 3)), Some((-100, 2)), Some((50, 1))] {
                let build = || -> Vec<Chunk> {
                    keys.iter().enumerate().map(|(i, k)| chunk(k, 100 * i as i64)).collect()
                };
                let in_memory = run(build(), false, usize::MAX, args(descending, nulls_last, slice));
                let forced = run(build(), true, usize::MAX, args(descending, nulls_last, slice));
                let tripped = run(build(), false, 200, args(descending, nulls_last, slice));
                assert_eq!(forced, in_memory);
                assert_eq!(tripped, in_memory);
            }
        }
    }
}

#[test]
fn ascending_nulls_first_exact() {
    let df = run(
        vec![chunk(&[Some(3), None, Some(1)], 0), chunk(&[Some(3), Some(2), None], 10)],
        false,
        usize::MAX,
        args(false, false, None),
    );
    assert_eq!(keys_of(&df), vec![None, None, Some(1), Some(2), Some(3), Some(3)]);
    assert_eq!(tags_of(&df), vec![1, 12, 2, 11, 0, 10]);
}

#[test]
fn descending_nulls_last_exact() {
    let df = run(
        vec![chunk(&[Some(3), None, Some(1)], 0), chunk(&[Some(3), Some(2), None], 10)],
        true,
        usize::MAX,
        args(true, true, None),
    );
    assert_eq!(keys_of(&df), vec![Some(3), Some(3), Some(2), Some(1), None, None]);
    assert_eq!(tags_of(&df), vec![0, 10, 11, 2, 1, 12]);
}

#[test]
fn split_shares_settings_and_starts_empty() {
    let mut group = SinkGroup::new(4, usize::MAX, true);
    let mut sink = SortSink::new(1, args(true, true, Some((1, 2))), 2, false, &mut group);
    sink.sink(&mut group, chunk(&[Some(1), Some(2), Some(3)], 0)).unwrap();
    let mut sibling = sink.split(2);
    assert_eq!(sibling.buffered_chunks(), 0);
    assert!(sibling.sample().is_empty());
    assert!(!sibling.is_ooc());
    sibling.sink(&mut group, chunk(&[Some(9), Some(8), Some(7)], 10)).unwrap();
    let df = finished(sibling.finalize(&mut group));
    // Sorted downwards 9, 8, 7; the slice keeps two rows from the second on.
    assert_eq!(keys_of(&df), vec![Some(8), Some(7)]);
    assert_eq!(sink.fmt(), "sort");
}

#[test]
fn partition_index_finds_first_boundary() {
    let bounds = vec![Some(10), Some(20), Some(30)];
    assert_eq!(partition_index(Some(5), &bounds, false, false), 0);
    assert_eq!(partition_index(Some(10), &bounds, false, false), 0);
    assert_eq!(partition_index(Some(11), &bounds, false, false), 1);
    assert_eq!(partition_index(Some(30), &bounds, false, false), 2);
    assert_eq!(partition_index(Some(31), &bounds, false, false), 3);
    assert_eq!(partition_index(None, &bounds, false, false), 0);
    assert_eq!(partition_index(None, &bounds, false, true), 3);
    let down = vec![Some(30), Some(20), Some(10)];
    assert_eq!(partition_index(Some(25), &down, true, false), 1);
    assert_eq!(partition_index(Some(5), &down, true, false), 3);
}

#[test]
fn sort_ooc_does_not_depend_on_boundaries() {
    let build = || -> VecDeque<Chunk> {
        let mut runs = VecDeque::new();
        runs.push_back(chunk(&[Some(4), Some(1), None, Some(4)], 0));
        runs.push_back(chunk(&[Some(2), Some(4), Some(0)], 10));
        runs
    };
    let expected = sort_with(accumulate_vertical(build(), 2), 1, false, false, None);
    assert_eq!(tags_of(&expected), vec![2, 12, 1, 10, 0, 3, 11]);
    for dist in [vec![], vec![Some(2)], vec![Some(4), Some(0)], vec![None, Some(1), Some(1), Some(9)]] {
        assert_eq!(sort_ooc(build(), 2, &dist, 1, false, false, None), expected);
    }
}
