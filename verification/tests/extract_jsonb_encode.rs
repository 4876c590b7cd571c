use geolite::domain::osm_relation::entity::{osm_member_type, osm_relation, osm_relation_member};
use geolite::domain::osm_way::entity::osm_way;
use geolite::extract::osm_data::element_payload::{encode_relation, encode_way};
use geolite::extract::osm_data::jsonb_encode::{
  decimal, encoder, write_float_text, write_header, write_int, write_text, TYPE_FLOAT, TYPE_INT,
  TYPE_TEXTRAW,
};

fn to_json(payload: &[u8]) -> serde_json::Value {
  let conn = rusqlite::Connection::open_in_memory().expect("failed to open sqlite");
  let text: String = conn
    .query_row("SELECT JSON(?1)", [payload], |r| r.get(0))
    .expect("sqlite nao conseguiu ler o jsonb produzido");
  serde_json::from_str(&text).expect("sqlite devolveu json invalido")
}

fn tags(pairs: &[(&str, &str)]) -> Vec<(String, String)> {
  pairs
    .iter()
    .map(|&(k, v)| (k.to_string(), v.to_string()))
    .collect()
}

fn encode_text_object(value: &str) -> serde_json::Value {
  let mut enc = encoder::new();
  let mut out = Vec::new();
  enc.encode_osm_node(&mut out, "0", "0", &tags(&[("k", value)]));
  to_json(&out)
}

fn relation() -> osm_relation {
  osm_relation {
    id: 200,
    tags: tags(&[("name", "Lisboa")]),
    members: vec![
      osm_relation_member {
        osm_member_type: osm_member_type::node,
        id: 1,
        role: "admin_centre".to_string(),
      },
      osm_relation_member {
        osm_member_type: osm_member_type::way,
        id: 2,
        role: "outer".to_string(),
      },
      osm_relation_member {
        osm_member_type: osm_member_type::relation,
        id: 3,
        role: "subarea".to_string(),
      },
    ],
  }
}

fn members_json() -> serde_json::Value {
  serde_json::from_str(
    r#"[
      { "type": "n", "id": 1, "role": "admin_centre" },
      { "type": "w", "id": 2, "role": "outer" },
      { "type": "r", "id": 3, "role": "subarea" }
    ]"#,
  )
  .expect("literal json")
}

#[test]
fn _00_00_encodes_node_with_lat_lon_and_tags() {
  let mut enc = encoder::new();
  let mut out = Vec::new();
  enc.encode_osm_node(&mut out, "38.7", "-9.1", &tags(&[("name", "Marco Zero")]));

  let json = to_json(&out);
  assert!((json["lat"].as_f64().expect("lat") - 38.7).abs() < 1e-9);
  assert!((json["lon"].as_f64().expect("lon") - -9.1).abs() < 1e-9);
  assert_eq!(json["tags"]["name"], "Marco Zero");
}

#[test]
fn _00_01_encodes_node_without_tags_as_empty_object() {
  let mut enc = encoder::new();
  let mut out = Vec::new();
  enc.encode_osm_node(&mut out, "0", "0", &Vec::new());

  assert_eq!(to_json(&out)["tags"], serde_json::Value::Object(serde_json::Map::new()));
}

#[test]
fn jsonb_encode_test__00_02_encodes_way_with_refs_array() {
  let mut enc = encoder::new();
  let mut out = Vec::new();
  enc.encode_osm_way(
    &mut out,
    &osm_way {
      id: 100,
      refs: vec![1, 2, -3],
      tags: tags(&[("highway", "residential")]),
    },
  );

  let json = to_json(&out);
  assert_eq!(json["refs"], serde_json::Value::from(vec![1, 2, -3]));
  assert_eq!(json["tags"]["highway"], "residential");
}

#[test]
fn jsonb_encode_test__00_03_encodes_relation_with_every_member_type() {
  let mut enc = encoder::new();
  let mut out = Vec::new();
  enc.encode_osm_relation(&mut out, &relation());

  let json = to_json(&out);
  assert_eq!(json["tags"]["name"], "Lisboa");
  assert_eq!(json["members"], members_json());
}

#[test]
fn element_payload_test__00_02_encodes_way_with_refs_array() {
  let mut enc = encoder::new();
  let mut out = Vec::new();
  encode_way(
    &mut enc,
    &mut out,
    &osm_way {
      id: 100,
      refs: vec![1, 2, -3],
      tags: tags(&[("highway", "residential")]),
    },
  );

  let json = to_json(&out);
  assert_eq!(json["refs"], serde_json::Value::from(vec![1, 2, -3]));
  assert_eq!(json["tags"]["highway"], "residential");
}

#[test]
fn _00_03_encodes_relation_with_every_member_type() {
  let mut enc = encoder::new();
  let mut out = Vec::new();
  encode_relation(&mut enc, &mut out, &relation());

  let json = to_json(&out);
  assert_eq!(json["tags"]["name"], "Lisboa");
  assert_eq!(json["members"], members_json());
}

#[test]
fn _00_04_writes_single_byte_header_for_short_payloads() {
  let short = "a".repeat(11);
  assert_eq!(encode_text_object(&short)["tags"]["k"], short);

  let mut out = Vec::new();
  write_header(&mut out, TYPE_TEXTRAW, 11);
  assert_eq!(out, vec![(11u8 << 4) | TYPE_TEXTRAW]);
}

#[test]
fn _00_05_writes_two_byte_header_for_payloads_up_to_255() {
  let medium = "b".repeat(255);
  assert_eq!(encode_text_object(&medium)["tags"]["k"], medium);

  let mut out = Vec::new();
  write_header(&mut out, TYPE_TEXTRAW, 255);
  assert_eq!(out, vec![(12u8 << 4) | TYPE_TEXTRAW, 0xFF]);
}

#[test]
fn _00_06_writes_three_byte_header_for_payloads_up_to_65535() {
  let large = "c".repeat(65_535);
  assert_eq!(encode_text_object(&large)["tags"]["k"], large);

  let mut out = Vec::new();
  write_header(&mut out, TYPE_TEXTRAW, 65_535);
  assert_eq!(out, vec![(13u8 << 4) | TYPE_TEXTRAW, 0xFF, 0xFF]);
}

#[test]
fn _00_07_writes_five_byte_header_for_large_payloads() {
  let huge = "d".repeat(70_000);
  assert_eq!(encode_text_object(&huge)["tags"]["k"], huge);

  let mut out = Vec::new();
  write_header(&mut out, TYPE_TEXTRAW, 0xFFFF_FFFF);
  assert_eq!(out, vec![(14u8 << 4) | TYPE_TEXTRAW, 0xFF, 0xFF, 0xFF, 0xFF]);
}

#[test]
fn _00_08_writes_nine_byte_header_for_payloads_above_four_gib() {
  let mut out = Vec::new();
  write_header(&mut out, TYPE_TEXTRAW, 0x1_0000_0000);
  assert_eq!(out, vec![(15u8 << 4) | TYPE_TEXTRAW, 0, 0, 0, 1, 0, 0, 0, 0]);
}

#[test]
fn _00_09_writes_ints_and_floats_as_decimal_text() {
  let mut out = Vec::new();
  write_int(&mut out, -42);
  assert_eq!(out, vec![(3u8 << 4) | TYPE_INT, b'-', b'4', b'2']);

  let mut out = Vec::new();
  write_float_text(&mut out, "3.5");
  assert_eq!(out, vec![(3u8 << 4) | TYPE_FLOAT, b'3', b'.', b'5']);
}

#[test]
fn _00_10_reuses_scratch_buffers_across_encodes() {
  let nodes: Vec<(String, String, Vec<(String, String)>)> = (0..5)
    .map(|i: i64| {
      (
        format!("{}", i),
        format!("{}", -i),
        tags(&[("name", "repetido"), ("ref", "x")]),
      )
    })
    .collect();

  let mut shared = encoder::new();
  let reused: Vec<Vec<u8>> = nodes
    .iter()
    .map(|(lat, lon, t)| {
      let mut out = Vec::new();
      shared.encode_osm_node(&mut out, lat, lon, t);
      out
    })
    .collect();

  let fresh: Vec<Vec<u8>> = nodes
    .iter()
    .map(|(lat, lon, t)| {
      let mut out = Vec::new();
      encoder::new().encode_osm_node(&mut out, lat, lon, t);
      out
    })
    .collect();

  assert_eq!(reused, fresh, "reaproveitar scratch nao pode alterar o resultado");
  assert!(shared.pooled_buffers() > 0, "o pool deve reter buffers para reuso");
}

#[test]
fn decimal_text_has_no_leading_zeros_and_covers_the_extremes() {
  assert_eq!(decimal(0), b"0".to_vec());
  assert_eq!(decimal(1200), b"1200".to_vec());
  assert_eq!(decimal(i64::MIN), b"-9223372036854775808".to_vec());
  assert_eq!(decimal(i64::MAX), b"9223372036854775807".to_vec());
}

#[test]
fn a_text_element_carries_its_utf8_bytes() {
  let mut out = Vec::new();
  write_text(&mut out, "ã");
  assert_eq!(out, vec![(2u8 << 4) | TYPE_TEXTRAW, 0xC3, 0xA3]);
}

#[test]
fn header_size_classes_switch_at_their_boundaries() {
  let mut out = Vec::new();
  write_header(&mut out, TYPE_INT, 12);
  assert_eq!(out, vec![(12u8 << 4) | TYPE_INT, 12]);
  let mut out = Vec::new();
  write_header(&mut out, TYPE_INT, 256);
  assert_eq!(out, vec![(13u8 << 4) | TYPE_INT, 1, 0]);
  let mut out = Vec::new();
  write_header(&mut out, TYPE_INT, 65_536);
  assert_eq!(out, vec![(14u8 << 4) | TYPE_INT, 0, 1, 0, 0]);
}
