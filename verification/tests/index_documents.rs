use geolite::index::admin_levels_hierarchy_tantivy::{
  build_entity_text, default_path_for, entity_names, expand_abbreviations, fuzzy_distance_for,
};

#[test]
fn entity_text_adds_the_postal_code_and_its_digits() {
  assert_eq!(build_entity_text("Paulista", Some("01310-100")), "Paulista 01310-100 01310100");
  assert_eq!(build_entity_text("Paulista", Some(" 01310 ")), "Paulista 01310");
  assert_eq!(build_entity_text("Paulista", Some("SW1A")), "Paulista SW1A 1");
  assert_eq!(build_entity_text("Paulista", Some("ABC")), "Paulista ABC");
  assert_eq!(build_entity_text("Paulista", Some("  ")), "Paulista");
  assert_eq!(build_entity_text("Paulista", None), "Paulista");
}

#[test]
fn abbreviations_are_expanded_both_ways() {
  let abbr = [("r.", "rua"), ("av.", "avenida")];
  assert_eq!(expand_abbreviations("Rua Augusta", &abbr), "Rua Augusta r. augusta");
  assert_eq!(expand_abbreviations("Av. Paulista", &abbr), "Av. Paulista avenida paulista");
  assert_eq!(expand_abbreviations("Praça", &abbr), "Praça");
  assert_eq!(expand_abbreviations("Rua", &[]), "Rua");
}

#[test]
fn fuzzy_matches_tolerate_more_edits_in_longer_tokens() {
  assert_eq!(fuzzy_distance_for("100"), 1);
  assert_eq!(fuzzy_distance_for("lisboa"), 2);
  assert_eq!(fuzzy_distance_for("ação"), 2);
}

#[test]
fn the_index_lives_beside_the_database() {
  assert_eq!(default_path_for("/data/pt.sqlite3"), Some("/data/pt.tantivy".to_string()));
  assert_eq!(default_path_for("pt.db"), Some("pt.tantivy".to_string()));
  assert_eq!(default_path_for(""), None);
  assert_eq!(default_path_for(":memory:"), None);
}

#[test]
fn a_document_joins_the_ancestor_names_it_knows() {
  let mut names = entity_names::new();
  names.add(1, "Portugal", None, 2);
  names.add(2, "Lisboa", Some("1000-001"), 8);
  names.add(3, "Rua Augusta", None, 12);
  let d = names.document(3, "[2, 99, 1]", &[("r.", "rua")]);
  assert_eq!(d.id, 3);
  assert_eq!(d.admin_level, 12);
  assert_eq!(d.name, "Rua Augusta");
  assert_eq!(d.hier, "Lisboa 1000-001 1000001 Portugal");
  assert_eq!(d.name_folded, "Rua Augusta r. augusta");
  assert_eq!(d.hier_folded, "Lisboa 1000-001 1000001 Portugal");
}

#[test]
fn a_document_without_a_known_name_or_parsable_ancestors_is_empty() {
  let mut names = entity_names::new();
  names.add(1, "Portugal", None, 2);
  names.add(1, "Portugal (renamed)", None, 3);
  let d = names.document(7, "not json", &[]);
  assert_eq!(d.name, "");
  assert_eq!(d.admin_level, 0);
  assert_eq!(d.hier, "");
  let d = names.document(1, "[]", &[]);
  assert_eq!(d.name, "Portugal (renamed)");
  assert_eq!(d.admin_level, 3);
}
