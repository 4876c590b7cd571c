use geolite::extract::admin_levels::grouping::{
  group_relation_rows, group_rows, sort_by_text, sorted_unique_ids, way_key,
};
use geolite::text::{push_zero_padded, text_less};

#[test]
fn rows_are_grouped_by_key_in_first_appearance_order() {
  let (firsts, members) = group_rows(&vec![7, 3, 7, 9, 3, 7]);
  assert_eq!(firsts, vec![0, 1, 3]);
  assert_eq!(members, vec![vec![0, 2, 5], vec![1, 4], vec![3]]);
  let (firsts, members) = group_rows(&Vec::new());
  assert!(firsts.is_empty() && members.is_empty());
}

#[test]
fn a_way_key_is_the_zero_padded_order_then_the_id() {
  assert_eq!(way_key(3, 123), "0000000003_123");
  assert_eq!(way_key(u32::MAX, u64::MAX), format!("{:010}_{}", u32::MAX, u64::MAX));
  assert_eq!(way_key(3, 123), format!("{:010}_{}", 3u32, 123u64));
  assert_eq!(way_key(0, 0), "0000000000_0");
}

#[test]
fn zero_padding_matches_rust_formatting() {
  for (n, w) in [(0i64, 4usize), (42, 1), (-42, 5), (i64::MIN, 10), (i64::MAX, 25)] {
    let mut s = String::new();
    push_zero_padded(&mut s, n, w);
    assert_eq!(s, format!("{:0w$}", n, w = w));
  }
}

#[test]
fn text_order_is_the_order_of_strings() {
  for (a, b) in [("a", "b"), ("ab", "a"), ("", "a"), ("10", "9"), ("ação", "acao"), ("x", "x")] {
    assert_eq!(text_less(a, b), a < b, "{a} < {b}");
  }
}

#[test]
fn positions_sort_by_their_key_texts() {
  let keys = vec!["b".to_string(), "a".to_string(), "c".to_string(), "ab".to_string()];
  assert_eq!(sort_by_text(&keys, vec![0, 1, 2, 3]), vec![1, 3, 0, 2]);
}

#[test]
fn relation_rows_are_grouped_into_ways_in_key_order() {
  // relation 5 has two ways at orders 1 and 0 (way 20 first by order), relation 6 one way;
  // relation 7 has two ways at the same order whose ids compare as text: "10" before "9".
  let relations = vec![5, 5, 6, 5, 5, 7, 7, 7];
  let orders = vec![1, 1, 0, 0, 0, 0, 0, 0];
  let ids = vec![10, 10, 30, 20, 20, 9, 10, 9];
  let out = group_relation_rows(&relations, &orders, &ids);
  assert_eq!(out.len(), 3);
  assert_eq!(out[0].first_row, 0);
  assert_eq!(out[0].rows, vec![0, 1, 3, 4]);
  assert_eq!(out[0].ways, vec![vec![3, 4], vec![0, 1]]);
  assert_eq!(out[1].first_row, 2);
  assert_eq!(out[1].ways, vec![vec![2]]);
  assert_eq!(out[2].first_row, 5);
  assert_eq!(out[2].ways, vec![vec![6], vec![5, 7]]);
}

#[test]
fn candidate_ids_are_sorted_once_each() {
  assert_eq!(sorted_unique_ids(vec![5, 3, 9, 3, 5, 1]), vec![1, 3, 5, 9]);
  assert!(sorted_unique_ids(Vec::new()).is_empty());
  assert_eq!(sorted_unique_ids(vec![u64::MAX, 0]), vec![0, u64::MAX]);
}
