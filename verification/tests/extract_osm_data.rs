use geolite::extract::osm_data::{data_opts, filter_tags, tag_passes};

fn default_opts() -> data_opts {
  data_opts {
    include_nodes: true,
    include_ways: true,
    include_relations: true,
    ignore_info: true,
    tags_include: None,
    tags_ignore: None,
    buffer_bytes: 1_073_741_824,
  }
}

#[test]
fn _02_02_tag_passes_applies_include_and_ignore_lists() {
  let none = default_opts();
  assert!(tag_passes("name", &none), "sem listas tudo passa");

  let kept_only = data_opts {
    tags_include: Some(vec!["name".to_string()]),
    ..default_opts()
  };
  assert!(tag_passes("name", &kept_only));
  assert!(!tag_passes("amenity", &kept_only));

  let ignore = data_opts {
    tags_ignore: Some(vec!["amenity".to_string()]),
    ..default_opts()
  };
  assert!(tag_passes("name", &ignore));
  assert!(!tag_passes("amenity", &ignore));
}

#[test]
fn _02_03_filter_tags_drops_out_of_range_string_indices() {
  let strings = ["", "name", "Alfa"];
  let opts = default_opts();

  let ok = filter_tags(&strings, &[1], &[2], &opts);
  assert_eq!(ok, vec![("name", "Alfa")]);

  assert!(
    filter_tags(&strings, &[99], &[2], &opts).is_empty(),
    "chave fora do range deve ser descartada"
  );
  assert!(
    filter_tags(&strings, &[1], &[99], &opts).is_empty(),
    "valor fora do range deve ser descartado"
  );
}

#[test]
fn _02_06_filter_tags_drops_tags_rejected_by_the_filters() {
  let strings = ["", "name", "Alfa", "amenity", "cafe"];
  let opts = data_opts {
    tags_ignore: Some(vec!["amenity".to_string()]),
    ..default_opts()
  };

  let kept = filter_tags(&strings, &[1, 3], &[2, 4], &opts);
  assert_eq!(kept, vec![("name", "Alfa")], "apenas a tag aprovada deve sobreviver");
}

use geolite::extract::osm_data::osm_nodes::{decode_dense_nodes, decode_nodes, osm_node};
use geolite::extract::osm_data::osm_relations::osm_member_type;
use geolite::extract::osm_data::{dense_nodes_msg, node_msg, osm_relations, osm_ways, relation_msg, way_msg};

fn make_dense(ids: Vec<i64>, lats: Vec<i64>, lons: Vec<i64>, keys_vals: Vec<i32>) -> dense_nodes_msg {
  dense_nodes_msg {
    id: ids,
    denseinfo: None,
    lat: lats,
    lon: lons,
    keys_vals,
  }
}

fn has_tag(n: &osm_node, key: &str) -> Option<String> {
  n.tags.iter().find(|(k, _)| k == key).map(|(_, v)| v.clone())
}

fn degrees(nano: i64) -> f64 {
  nano as f64 * 1e-9
}

#[test]
fn _00_accumulates_delta_encoded_node_ids() {
  let dense = make_dense(vec![1, 1, 1], vec![0, 0, 0], vec![0, 0, 0], vec![0, 0, 0]);
  let result = decode_dense_nodes(&dense, &[""], 100, 0, 0, 1000, &default_opts());
  assert_eq!(result.len(), 3);
  assert_eq!(result[0].id, 1);
  assert_eq!(result[1].id, 2);
  assert_eq!(result[2].id, 3);
}

#[test]
fn _01_decodes_lat_lon_with_granularity() {
  let dense = make_dense(vec![1], vec![450_000_000], vec![90_000_000], vec![0]);
  let result = decode_dense_nodes(&dense, &[""], 100, 0, 0, 1000, &default_opts());
  assert!((degrees(result[0].lat_nano) - 45.0).abs() < 1e-9);
  assert!((degrees(result[0].lon_nano) - 9.0).abs() < 1e-9);
  assert_eq!(result[0].lat_nano, 45_000_000_000);
}

#[test]
fn _02_applies_lat_lon_offsets() {
  let dense = make_dense(vec![1], vec![0], vec![0], vec![0]);
  let result = decode_dense_nodes(&dense, &[""], 100, 1_000_000_000, 2_000_000_000, 1000, &default_opts());
  assert!((degrees(result[0].lat_nano) - 1.0).abs() < 1e-9);
  assert!((degrees(result[0].lon_nano) - 2.0).abs() < 1e-9);
}

#[test]
fn _03_resolves_node_tags_from_string_table() {
  let dense = make_dense(vec![1], vec![0], vec![0], vec![1, 2, 3, 4, 0]);
  let strings = ["", "name", "Test", "amenity", "cafe"];
  let result = decode_dense_nodes(&dense, &strings, 100, 0, 0, 1000, &default_opts());
  assert_eq!(has_tag(&result[0], "name"), Some("Test".into()));
  assert_eq!(has_tag(&result[0], "amenity"), Some("cafe".into()));
}

#[test]
fn _04_keeps_nodes_with_and_without_tags() {
  let dense = make_dense(vec![1, 1], vec![0, 0], vec![0, 0], vec![1, 2, 0, 0]);
  let strings = ["", "name", "Test"];
  let result = decode_dense_nodes(&dense, &strings, 100, 0, 0, 1000, &default_opts());
  assert_eq!(result.len(), 2);
  assert_eq!(has_tag(&result[0], "name"), Some("Test".into()));
  assert!(result[1].tags.is_empty());
}

#[test]
fn _05_tags_include_keeps_only_listed_tags() {
  let dense = make_dense(vec![1], vec![0], vec![0], vec![1, 2, 3, 4, 0]);
  let strings = ["", "name", "Test", "amenity", "cafe"];
  let opts = data_opts {
    tags_include: Some(vec!["name".to_string()]),
    tags_ignore: None,
    ..default_opts()
  };
  let result = decode_dense_nodes(&dense, &strings, 100, 0, 0, 1000, &opts);
  assert_eq!(result[0].tags.len(), 1);
  assert_eq!(has_tag(&result[0], "name"), Some("Test".into()));
}

#[test]
fn _06_tags_ignore_drops_listed_tags() {
  let dense = make_dense(vec![1], vec![0], vec![0], vec![1, 2, 3, 4, 0]);
  let strings = ["", "name", "Test", "amenity", "cafe"];
  let opts = data_opts {
    tags_include: None,
    tags_ignore: Some(vec!["amenity".to_string()]),
    ..default_opts()
  };
  let result = decode_dense_nodes(&dense, &strings, 100, 0, 0, 1000, &opts);
  assert_eq!(result[0].tags.len(), 1);
  assert_eq!(has_tag(&result[0], "name"), Some("Test".into()));
}

#[test]
fn dense_nodes_read_missing_coordinate_deltas_as_zero_and_stop_tags_at_the_end() {
  let dense = make_dense(vec![5, 2], vec![10], vec![], vec![1, 2]);
  let strings = ["", "name", "Test"];
  let result = decode_dense_nodes(&dense, &strings, 1, 0, 0, 1000, &default_opts());
  assert_eq!(result.len(), 2);
  assert_eq!((result[0].id, result[0].lat_nano, result[0].lon_nano), (5, 10, 0));
  assert_eq!((result[1].id, result[1].lat_nano, result[1].lon_nano), (7, 10, 0));
  assert_eq!(has_tag(&result[0], "name"), Some("Test".into()));
  assert!(result[1].tags.is_empty());
}

#[test]
fn plain_nodes_keep_their_ids_and_scale_their_coordinates() {
  let nodes = [
    node_msg { id: 9, keys: vec![1], vals: vec![2], info: None, lat: 3, lon: -4 },
    node_msg { id: 4, keys: vec![], vals: vec![], info: None, lat: 0, lon: 0 },
  ];
  let strings = ["", "name", "Plano"];
  let result = decode_nodes(&nodes, &strings, 100, 7, 0, 1000, &default_opts());
  assert_eq!(result.len(), 2);
  assert_eq!((result[0].id, result[0].lat_nano, result[0].lon_nano), (9, 307, -400));
  assert_eq!(has_tag(&result[0], "name"), Some("Plano".into()));
  assert_eq!(result[1].id, 4);
}

fn make_relation(
  id: i64,
  keys: Vec<u32>,
  vals: Vec<u32>,
  roles_sid: Vec<i32>,
  memids: Vec<i64>,
  types: Vec<i32>,
) -> relation_msg {
  relation_msg {
    id,
    keys,
    vals,
    info: None,
    roles_sid,
    memids,
    types,
  }
}

fn make_way(id: i64, keys: Vec<u32>, vals: Vec<u32>, refs: Vec<i64>) -> way_msg {
  way_msg {
    id,
    keys,
    vals,
    info: None,
    refs,
    lat: vec![],
    lon: vec![],
  }
}

#[test]
fn osm_relations_test__00_delta_decodes_member_ids() {
  let rel = make_relation(1, vec![], vec![], vec![0, 0, 0], vec![5, 3, -2], vec![0, 0, 0]);
  let result = osm_relations::decode(&[rel], &[""], &default_opts());
  assert_eq!(result.len(), 1);
  assert_eq!(result[0].members.len(), 3);
  assert_eq!(result[0].members[0].id, 5);
  assert_eq!(result[0].members[1].id, 8);
  assert_eq!(result[0].members[2].id, 6);
}

#[test]
fn osm_relations_test__01_maps_member_types_node_way_relation() {
  let rel = make_relation(1, vec![], vec![], vec![0, 0, 0], vec![1, 1, 1], vec![0, 1, 2]);
  let result = osm_relations::decode(&[rel], &[""], &default_opts());
  assert!(matches!(result[0].members[0].osm_member_type, osm_member_type::node));
  assert!(matches!(result[0].members[1].osm_member_type, osm_member_type::way));
  assert!(matches!(result[0].members[2].osm_member_type, osm_member_type::relation));
}

#[test]
fn osm_relations_test__02_resolves_member_roles_from_string_table() {
  let rel = make_relation(1, vec![], vec![], vec![1, 2], vec![10, 0], vec![1, 1]);
  let strings = ["", "outer", "inner"];
  let result = osm_relations::decode(&[rel], &strings, &default_opts());
  assert_eq!(result[0].members[0].role, "outer");
  assert_eq!(result[0].members[1].role, "inner");
}

#[test]
fn osm_relations_test__03_missing_role_falls_back_to_empty_string() {
  let rel = make_relation(1, vec![], vec![], vec![1], vec![1, 2], vec![1, 1]);
  let strings = ["", "outer"];
  let result = osm_relations::decode(&[rel], &strings, &default_opts());
  assert_eq!(result[0].members.len(), 2);
  assert_eq!(result[0].members[0].role, "outer");
  assert_eq!(result[0].members[1].role, "");
}

#[test]
fn osm_relations_test__04_preserves_order_of_multiple_relations() {
  let r1 = make_relation(100, vec![], vec![], vec![], vec![], vec![]);
  let r2 = make_relation(200, vec![], vec![], vec![], vec![], vec![]);
  let result = osm_relations::decode(&[r1, r2], &[""], &default_opts());
  assert_eq!(result.len(), 2);
  assert_eq!(result[0].id, 100);
  assert_eq!(result[1].id, 200);
}

#[test]
fn osm_ways_test__00_delta_decodes_way_refs() {
  let w = make_way(1, vec![], vec![], vec![10, 10, -5]);
  let result = osm_ways::decode(&[w], &[""], &default_opts());
  assert_eq!(result.len(), 1);
  assert_eq!(result[0].refs, vec![10, 20, 15]);
}

#[test]
fn osm_ways_test__01_preserves_order_of_multiple_ways() {
  let w1 = make_way(100, vec![], vec![], vec![]);
  let w2 = make_way(200, vec![], vec![], vec![]);
  let result = osm_ways::decode(&[w1, w2], &[""], &default_opts());
  assert_eq!(result.len(), 2);
  assert_eq!(result[0].id, 100);
  assert_eq!(result[1].id, 200);
}

#[test]
fn way_tags_go_through_the_extraction_options() {
  let w = make_way(1, vec![1, 3], vec![2, 4], vec![]);
  let strings = ["", "name", "Alfa", "amenity", "cafe"];
  let opts = data_opts {
    tags_ignore: Some(vec!["amenity".to_string()]),
    ..default_opts()
  };
  let result = osm_ways::decode(&[w], &strings, &opts);
  assert_eq!(result[0].tags, vec![("name".to_string(), "Alfa".to_string())]);
}
