use geolite::domain::osm_relation::decoder::decode;
use geolite::domain::osm_relation::entity::{osm_member_type, osm_relation, osm_relation_member};
use geolite::domain::osm_relation::payload::encode;
use geolite::extract::osm_data::jsonb_encode::encoder;
use geolite::pbf::message::relation_msg;
use geolite::pbf::tag_policy::tag_policy;

fn default_opts() -> tag_policy {
  tag_policy::default()
}

fn make_relation(
  id: i64,
  keys: Vec<u32>,
  vals: Vec<u32>,
  roles_sid: Vec<i32>,
  memids: Vec<i64>,
  types: Vec<i32>,
) -> relation_msg {
  relation_msg {
    id,
    keys,
    vals,
    info: None,
    roles_sid,
    memids,
    types,
  }
}

fn to_json(payload: &[u8]) -> serde_json::Value {
  let conn = rusqlite::Connection::open_in_memory().expect("failed to open sqlite");
  let text: String = conn
    .query_row("SELECT JSON(?1)", [payload], |r| r.get(0))
    .expect("sqlite could not read the jsonb");
  serde_json::from_str(&text).expect("sqlite returned invalid json")
}

fn tags(pairs: &[(&str, &str)]) -> Vec<(String, String)> {
  pairs
    .iter()
    .map(|&(k, v)| (k.to_string(), v.to_string()))
    .collect()
}

#[test]
fn _00_delta_decodes_member_ids() {
  let rel = make_relation(1, vec![], vec![], vec![0, 0, 0], vec![5, 3, -2], vec![0, 0, 0]);
  let result = decode(&[rel], &[""], &default_opts());
  assert_eq!(result.len(), 1);
  assert_eq!(result[0].members.len(), 3);
  assert_eq!(result[0].members[0].id, 5);
  assert_eq!(result[0].members[1].id, 8);
  assert_eq!(result[0].members[2].id, 6);
}

#[test]
fn _01_maps_member_types_node_way_relation() {
  let rel = make_relation(1, vec![], vec![], vec![0, 0, 0], vec![1, 1, 1], vec![0, 1, 2]);
  let result = decode(&[rel], &[""], &default_opts());
  assert!(matches!(result[0].members[0].osm_member_type, osm_member_type::node));
  assert!(matches!(result[0].members[1].osm_member_type, osm_member_type::way));
  assert!(matches!(result[0].members[2].osm_member_type, osm_member_type::relation));
}

#[test]
fn _02_resolves_member_roles_from_string_table() {
  let rel = make_relation(1, vec![], vec![], vec![1, 2], vec![10, 0], vec![1, 1]);
  let strings = ["", "outer", "inner"];
  let result = decode(&[rel], &strings, &default_opts());
  assert_eq!(result[0].members[0].role, "outer");
  assert_eq!(result[0].members[1].role, "inner");
}

#[test]
fn _03_missing_role_falls_back_to_empty_string() {
  let rel = make_relation(1, vec![], vec![], vec![1], vec![1, 2], vec![1, 1]);
  let strings = ["", "outer"];
  let result = decode(&[rel], &strings, &default_opts());
  assert_eq!(result[0].members.len(), 2);
  assert_eq!(result[0].members[0].role, "outer");
  assert_eq!(result[0].members[1].role, "");
}

#[test]
fn _04_preserves_order_of_multiple_relations() {
  let r1 = make_relation(100, vec![], vec![], vec![], vec![], vec![]);
  let r2 = make_relation(200, vec![], vec![], vec![], vec![], vec![]);
  let result = decode(&[r1, r2], &[""], &default_opts());
  assert_eq!(result.len(), 2);
  assert_eq!(result[0].id, 100);
  assert_eq!(result[1].id, 200);
}

#[test]
fn relation_decoder_keeps_tags_the_policy_passes_and_out_of_range_roles_read_empty() {
  let rel = make_relation(7, vec![1, 3], vec![2, 4], vec![-1, 9], vec![4, 4], vec![2, 5]);
  let strings = ["", "name", "Lisboa", "boundary", "administrative"];
  let policy = tag_policy {
    included: None,
    ignore: Some(vec!["boundary".to_string()]),
  };
  let result = decode(&[rel], &strings, &policy);
  assert_eq!(result[0].tags, tags(&[("name", "Lisboa")]));
  assert_eq!(result[0].members[0].role, "");
  assert_eq!(result[0].members[1].role, "");
  assert_eq!(result[0].members[1].id, 8);
  assert!(matches!(result[0].members[0].osm_member_type, osm_member_type::relation));
  assert!(matches!(result[0].members[1].osm_member_type, osm_member_type::node));
}

#[test]
fn _00_encodes_relation_with_every_member_type() {
  let mut enc = encoder::new();
  let mut out = Vec::new();
  encode(
    &mut enc,
    &mut out,
    &osm_relation {
      id: 200,
      tags: tags(&[("name", "Lisboa")]),
      members: vec![
        osm_relation_member {
          osm_member_type: osm_member_type::node,
          id: 1,
          role: "admin_centre".to_string(),
        },
        osm_relation_member {
          osm_member_type: osm_member_type::way,
          id: 2,
          role: "outer".to_string(),
        },
        osm_relation_member {
          osm_member_type: osm_member_type::relation,
          id: 3,
          role: "subarea".to_string(),
        },
      ],
    },
  );
  let json = to_json(&out);
  assert_eq!(json["tags"]["name"], "Lisboa");
  let expected: serde_json::Value = serde_json::from_str(
    r#"[{"type":"n","id":1,"role":"admin_centre"},{"type":"w","id":2,"role":"outer"},{"type":"r","id":3,"role":"subarea"}]"#,
  )
  .unwrap();
  assert_eq!(json["members"], expected);
}
