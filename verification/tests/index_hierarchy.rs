use geolite::index::hierarchy::{
  candidate_levels, hierarchy_entry, ids_to_json, level_order, link_to_parent, new_entry,
  pick_parent, relink_peers, sort_by_area, with_postcode, worker_chunk_size,
};

fn entry(id: i64, level: u8, rank: u64, name: &str) -> hierarchy_entry {
  new_entry(id, level, rank, name, None)
}

#[test]
fn a_readable_name_carries_the_trimmed_postal_code() {
  assert_eq!(with_postcode("Lisboa", Some(" 1000-001 ")), "Lisboa, 1000-001");
  assert_eq!(with_postcode("Lisboa", Some("   ")), "Lisboa");
  assert_eq!(with_postcode("Lisboa", None), "Lisboa");
}

#[test]
fn a_fresh_entry_has_no_ancestors_and_its_own_name() {
  let e = new_entry(5, 8, 3, "Porto", Some("4000"));
  assert!(e.ancestor_ids.is_empty());
  assert_eq!(e.user_friendly_name, "Porto, 4000");
}

#[test]
fn candidates_are_grouped_by_level_closest_first() {
  let entries = vec![
    entry(1, 2, 100, "Portugal"),
    entry(2, 4, 50, "Lisboa district"),
    entry(3, 8, 10, "Lisboa"),
    entry(4, 8, 20, "Bigger peer"),
    entry(5, 8, 5, "Smaller peer"),
    entry(6, 10, 1, "Below"),
    entry(7, 4, 40, "Other district"),
  ];
  // the entry being resolved is entry 3 (id 3, level 8, rank 10)
  let hits = vec![0, 1, 2, 3, 4, 5, 6];
  let groups = candidate_levels(&entries, &hits, 3, 8, 10);
  assert_eq!(groups, vec![(8, vec![3]), (4, vec![1, 6]), (2, vec![0])]);
}

#[test]
fn the_parent_is_the_smallest_containing_candidate_first_on_ties() {
  let entries = vec![
    entry(1, 4, 50, "a"),
    entry(2, 4, 30, "b"),
    entry(3, 4, 30, "c"),
    entry(4, 4, 10, "d"),
  ];
  let group = vec![0, 1, 2, 3];
  assert_eq!(pick_parent(&entries, &group, &vec![true, true, true, false]), Some(1));
  assert_eq!(pick_parent(&entries, &group, &vec![true, false, false, true]), Some(3));
  assert_eq!(pick_parent(&entries, &group, &vec![false, false, false, false]), None);
}

#[test]
fn a_parent_gives_its_chain_and_name() {
  let mut entries = vec![entry(1, 2, 100, "Portugal"), entry(2, 8, 10, "Lisboa")];
  entries[1].ancestor_ids = vec![1];
  entries[1].user_friendly_name = "Lisboa, Portugal".to_string();
  let (ids, ufn) = link_to_parent(&entries, "Alfama", Some("1100"), Some(1));
  assert_eq!(ids, vec![2, 1]);
  assert_eq!(ufn, "Alfama, Lisboa, Portugal, 1100");
  let (ids, ufn) = link_to_parent(&entries, "Alfama", None, None);
  assert!(ids.is_empty());
  assert_eq!(ufn, "Alfama");
}

#[test]
fn relinking_peers_carries_a_chain_through_the_level() {
  // c's parent is b, b's parent is a, all at one level; resolved side by side, c saw b's
  // initial state. relinking in order a, b, c carries the chain through.
  let mut entries = vec![entry(10, 8, 3, "a"), entry(11, 8, 2, "b"), entry(12, 8, 1, "c")];
  entries[1].ancestor_ids = vec![10];
  entries[1].user_friendly_name = "b, a".to_string();
  entries[2].ancestor_ids = vec![11];
  entries[2].user_friendly_name = "c, b".to_string();
  relink_peers(&mut entries, &vec![0, 1, 2]);
  assert_eq!(entries[2].ancestor_ids, vec![11, 10]);
  assert_eq!(entries[2].user_friendly_name, "c, b, a");
  assert!(entries[0].ancestor_ids.is_empty());
}

#[test]
fn a_missing_first_ancestor_leaves_the_entry_as_it_is() {
  let mut entries = vec![entry(10, 8, 3, "a")];
  entries[0].ancestor_ids = vec![99];
  entries[0].user_friendly_name = "a, x".to_string();
  relink_peers(&mut entries, &vec![0]);
  assert_eq!(entries[0].ancestor_ids, vec![99]);
  assert_eq!(entries[0].user_friendly_name, "a, x");
}

#[test]
fn ids_are_stored_as_a_json_array() {
  assert_eq!(ids_to_json(&vec![]), "[]");
  assert_eq!(ids_to_json(&vec![7]), "[7]");
  assert_eq!(ids_to_json(&vec![12, 0, -3, i64::MIN]), "[12,0,-3,-9223372036854775808]");
  assert_eq!(
    ids_to_json(&vec![1, 22, 333]),
    serde_json::to_string(&[1i64, 22, 333]).expect("json")
  );
}

#[test]
fn chunks_split_the_entries_over_the_workers() {
  assert_eq!(worker_chunk_size(0, 8), 1);
  assert_eq!(worker_chunk_size(10, 3), 4);
  assert_eq!(worker_chunk_size(9, 3), 3);
  assert_eq!(worker_chunk_size(2, 8), 1);
}

#[test]
fn a_level_is_sorted_largest_area_first_earlier_first_on_ties() {
  let entries = vec![
    entry(1, 8, 5, "a"),
    entry(2, 8, 9, "b"),
    entry(3, 8, 5, "c"),
    entry(4, 8, 7, "d"),
    entry(5, 8, 1, "e"),
  ];
  assert_eq!(sort_by_area(&entries, vec![0, 1, 2, 3, 4]), vec![1, 3, 0, 2, 4]);
  assert_eq!(sort_by_area(&entries, vec![4, 2, 0]), vec![0, 2, 4]);
}

#[test]
fn levels_come_in_ascending_order_each_by_area() {
  let entries = vec![
    entry(1, 8, 5, "a"),
    entry(2, 4, 9, "b"),
    entry(3, 8, 6, "c"),
    entry(4, 2, 7, "d"),
    entry(5, 4, 1, "e"),
  ];
  assert_eq!(level_order(&entries), vec![vec![3], vec![1, 4], vec![2, 0]]);
  assert!(level_order(&Vec::new()).is_empty());
}
