use geolite::domain::osm_way::decoder::decode;
use geolite::domain::osm_way::entity::osm_way;
use geolite::domain::osm_way::payload::encode;
use geolite::extract::osm_data::jsonb_encode::encoder;
use geolite::pbf::message::way_msg;
use geolite::pbf::tag_policy::tag_policy;

fn default_opts() -> tag_policy {
  tag_policy::default()
}

fn make_way(id: i64, keys: Vec<u32>, vals: Vec<u32>, refs: Vec<i64>) -> way_msg {
  way_msg {
    id,
    keys,
    vals,
    info: None,
    refs,
    lat: vec![],
    lon: vec![],
  }
}

fn to_json(payload: &[u8]) -> serde_json::Value {
  let conn = rusqlite::Connection::open_in_memory().expect("failed to open sqlite");
  let text: String = conn
    .query_row("SELECT JSON(?1)", [payload], |r| r.get(0))
    .expect("sqlite could not read the jsonb");
  serde_json::from_str(&text).expect("sqlite returned invalid json")
}

#[test]
fn _00_delta_decodes_way_refs() {
  let w = make_way(1, vec![], vec![], vec![10, 10, -5]);
  let result = decode(&[w], &[""], &default_opts());
  assert_eq!(result.len(), 1);
  assert_eq!(result[0].refs, vec![10, 20, 15]);
}

#[test]
fn _01_preserves_order_of_multiple_ways() {
  let w1 = make_way(100, vec![], vec![], vec![]);
  let w2 = make_way(200, vec![], vec![], vec![]);
  let result = decode(&[w1, w2], &[""], &default_opts());
  assert_eq!(result.len(), 2);
  assert_eq!(result[0].id, 100);
  assert_eq!(result[1].id, 200);
}

#[test]
fn way_decoder_keeps_one_value_per_key_the_last_one() {
  let strings = ["", "name", "Rua Alfa", "Rua Beta", "highway", "residential"];
  let w = make_way(5, vec![1, 4, 1], vec![2, 5, 3], vec![1]);
  let result = decode(&[w], &strings, &default_opts());
  assert_eq!(
    result[0].tags,
    vec![
      ("name".to_string(), "Rua Beta".to_string()),
      ("highway".to_string(), "residential".to_string())
    ]
  );
}

#[test]
fn _00_02_encodes_way_with_refs_array() {
  let mut enc = encoder::new();
  let mut out = Vec::new();
  encode(
    &mut enc,
    &mut out,
    &osm_way {
      id: 100,
      refs: vec![1, 2, -3],
      tags: vec![("highway".to_string(), "residential".to_string())],
    },
  );
  let json = to_json(&out);
  assert_eq!(json["refs"], serde_json::from_str::<serde_json::Value>("[1,2,-3]").unwrap());
  assert_eq!(json["tags"]["highway"], "residential");
}
