use geolite::extract::blob_chunks::{blob_scan, chunk_type, frame_header_len};
use geolite::extract::header::{features_json, replication_sequence};

#[test]
fn a_frame_starts_with_its_big_endian_header_length() {
  assert_eq!(frame_header_len(&[0, 0, 0, 13]), 13);
  assert_eq!(frame_header_len(&[0x01, 0x02, 0x03, 0x04]), 0x0102_0304);
  assert_eq!(frame_header_len(&[0xFF, 0xFF, 0xFF, 0xFF]), u32::MAX);
}

#[test]
fn blobs_follow_one_another_and_only_osmheader_is_the_header() {
  let mut scan = blob_scan::new(3);
  scan.add_blob(13, "OSMHeader", 70);
  scan.add_blob(14, "OSMData", 1000);
  scan.add_blob(14, "Other", 5);
  assert_eq!(scan.offset, (4 + 13 + 70) + (4 + 14 + 1000) + (4 + 14 + 5));
  let c = &scan.chunks;
  assert_eq!(c.len(), 3);
  assert!(matches!(c[0].chunk_type, chunk_type::header));
  assert!(matches!(c[1].chunk_type, chunk_type::data));
  assert!(matches!(c[2].chunk_type, chunk_type::data));
  assert_eq!((c[0].first_byte, c[0].chunk_size, c[0].data_first_byte, c[0].data_size), (0, 87, 17, 70));
  assert_eq!((c[1].first_byte, c[1].data_first_byte, c[1].data_size), (87, 105, 1000));
  assert_eq!(c[2].first_byte, c[1].first_byte + c[1].chunk_size);
  assert_eq!(c[2].file_id, 3);
  let p = scan.progress(5000);
  assert_eq!((p.total_bytes, p.bytes_read), (5000, scan.offset));
}

#[test]
fn _00_06_drops_negative_replication_sequence_number() {
  assert_eq!(replication_sequence(Some(-1)), None);
  assert_eq!(replication_sequence(Some(42)), Some(42));
  assert_eq!(replication_sequence(Some(4_294_967_296)), None);
  assert_eq!(replication_sequence(None), None);
}

#[test]
fn features_are_stored_as_a_json_array_or_not_at_all() {
  assert_eq!(features_json(&Vec::new()), None);
  let f = features_json(&vec!["OsmSchema-V0.6".to_string(), "DenseNodes".to_string()])
    .expect("json");
  assert_eq!(String::from_utf8(f).expect("utf8"), "[\"OsmSchema-V0.6\",\"DenseNodes\"]");
}
