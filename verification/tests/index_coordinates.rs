use geolite::index::coordinates::worker_ranges;

#[test]
fn the_id_range_is_cut_into_consecutive_worker_ranges() {
  assert_eq!(worker_ranges(1, 100, 4), vec![(1, 25), (26, 50), (51, 75), (76, 100)]);
  assert_eq!(worker_ranges(10, 10, 1), vec![(10, 10)]);
}

#[test]
fn with_more_workers_than_ids_the_last_ranges_are_empty() {
  let ranges = worker_ranges(0, 2, 4);
  assert_eq!(ranges, vec![(0, 0), (1, 1), (2, 2), (3, 2)]);
  for x in 0..=2i64 {
    assert_eq!(ranges.iter().filter(|(a, b)| *a <= x && x <= *b).count(), 1);
  }
}
