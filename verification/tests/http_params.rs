use geolite::http::status::assemble;
use geolite::http::{parse_last_admin_levels, query_param, url_decode};

#[test]
fn _01_00_pure_ascii_string_returns_unchanged() {
  assert_eq!(url_decode("hello-world_123"), "hello-world_123");
}

#[test]
fn _01_01_plus_is_converted_to_space() {
  assert_eq!(url_decode("a+b+c"), "a b c");
}

#[test]
fn _01_02_percent_20_is_converted_to_space() {
  assert_eq!(url_decode("a%20b"), "a b");
}

#[test]
fn _01_03_multibyte_sequence_decodes_to_char() {
  assert_eq!(url_decode("%C3%A3"), "ã");
}

#[test]
fn _01_04_invalid_percent_escape_does_not_panic() {
  assert_eq!(url_decode("%ZZ"), "%ZZ");
  assert_eq!(url_decode("%2"), "%2");
  assert_eq!(url_decode("%"), "%");
}

#[test]
fn _01_05_empty_string_returns_empty() {
  assert_eq!(url_decode(""), "");
}

#[test]
fn _02_00_present_key_returns_decoded_value() {
  assert_eq!(query_param("q=hello", "q"), Some("hello".to_string()));
}

#[test]
fn _02_01_absent_key_returns_none() {
  assert_eq!(query_param("a=1&b=2", "c"), None);
}

#[test]
fn _02_02_multiple_params_returns_value_of_matching_key() {
  assert_eq!(query_param("a=1&b=2&c=3", "b"), Some("2".to_string()));
}

#[test]
fn _02_03_percent_20_in_value_is_decoded() {
  assert_eq!(query_param("q=a%20b", "q"), Some("a b".to_string()));
}

#[test]
fn _02_04_empty_query_string_returns_none() {
  assert_eq!(query_param("", "q"), None);
}

#[test]
fn _04_00_single_level_parses() {
  assert_eq!(parse_last_admin_levels("10").unwrap(), vec![10]);
}

#[test]
fn _04_01_multiple_levels_parse() {
  assert_eq!(parse_last_admin_levels("8,10,12").unwrap(), vec![8, 10, 12]);
}

#[test]
fn _04_02_empty_value_errors() {
  assert!(parse_last_admin_levels("").is_err());
  assert!(parse_last_admin_levels(" , ").is_err());
}

#[test]
fn _04_03_non_numeric_level_errors() {
  assert!(parse_last_admin_levels("abc").is_err());
  assert!(parse_last_admin_levels("8,abc").is_err());
}

#[test]
fn _04_04_level_above_u8_range_errors() {
  assert!(parse_last_admin_levels("300").is_err());
}

#[test]
fn _04_05_whitespace_around_values_is_tolerated() {
  assert_eq!(parse_last_admin_levels(" 8 , 10 ").unwrap(), vec![8, 10]);
}

#[test]
fn is_ok_is_true_only_when_both_services_available() {
  assert!(assemble("db.sqlite3", true, true).is_ok);
  assert!(!assemble("db.sqlite3", true, false).is_ok);
  assert!(!assemble("db.sqlite3", false, true).is_ok);
  assert!(!assemble("db.sqlite3", false, false).is_ok);
}

#[test]
fn output_carries_the_database_entry() {
  let out = assemble("database.sqlite3", true, false);
  assert_eq!(out.databases.len(), 1);
  let db = &out.databases[0];
  assert_eq!(db.file, "database.sqlite3");
  assert!(db.text_to_address);
  assert!(!db.coordinates_to_address);
}

#[test]
fn plain_text_decodes_to_itself() {
  let s = "Rua-Alfa_1.2~";
  assert_eq!(url_decode(s), s);
}

#[test]
fn a_percent_escape_may_use_lower_case_hex() {
  assert_eq!(url_decode("a%2fb%2F"), "a/b/");
}

#[test]
fn a_bytes_escape_that_is_not_utf8_is_replaced() {
  assert_eq!(url_decode("%FF"), "\u{FFFD}");
}

#[test]
fn the_first_matching_key_wins_and_a_bare_key_reads_empty() {
  assert_eq!(query_param("q=1&q=2", "q"), Some("1".to_string()));
  assert_eq!(query_param("flag&x=1", "flag"), Some(String::new()));
  assert_eq!(query_param("k=a=b", "k"), Some("a=b".to_string()));
}

#[test]
fn a_parse_error_names_the_piece_that_failed() {
  assert_eq!(
    parse_last_admin_levels("8,abc"),
    Err("invalid admin level: abc".to_string())
  );
  assert_eq!(
    parse_last_admin_levels(" , "),
    Err("last_admin_levels must name at least one level".to_string())
  );
}
