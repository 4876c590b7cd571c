use geolite::domain::osm_way::way_filter;
use geolite::extract::admin_levels::{
  default_exclude, default_include, extraction_rules, osm_admin_level, resolve_rules,
};

#[test]
fn _00_00_level_without_rules_resolves_to_empty_lists() {
  let (kept, exclude) = resolve_rules(8, &[]);
  assert!(kept.is_empty());
  assert!(exclude.is_empty());
}

#[test]
fn _00_01_level_10_resolves_to_default_include() {
  let (kept, exclude) = resolve_rules(10, &[]);
  assert_eq!(kept.len(), 2);
  assert!(matches!(kept[0], way_filter::include_place_neighbourhood));
  assert!(matches!(kept[1], way_filter::include_place_suburb));
  assert!(exclude.is_empty());
}

#[test]
fn _00_02_level_12_resolves_to_default_exclude() {
  let (kept, exclude) = resolve_rules(12, &[]);
  assert!(kept.is_empty());
  assert_eq!(exclude.len(), 5);
  assert!(matches!(exclude[0], way_filter::exclude_place_neighbourhood));
  assert!(matches!(exclude[4], way_filter::exclude_waterway));
}

#[test]
fn _00_03_override_takes_precedence_over_default() {
  let overrides = [extraction_rules {
    level: 12,
    included: vec![way_filter::include_highway_primary],
    exclude: vec![way_filter::exclude_building],
  }];

  let (kept, exclude) = resolve_rules(12, &overrides);
  assert_eq!(kept.len(), 1);
  assert!(matches!(kept[0], way_filter::include_highway_primary));
  assert_eq!(exclude.len(), 1);
}

#[test]
fn _00_04_override_for_another_level_is_ignored() {
  let overrides = [extraction_rules {
    level: 4,
    included: vec![way_filter::include_highway_primary],
    exclude: vec![],
  }];

  let (kept, exclude) = resolve_rules(12, &overrides);
  assert!(kept.is_empty(), "nivel 12 nao deve herdar override do 4");
  assert_eq!(exclude.len(), 5, "nivel 12 mantem o default_exclude");
}

#[test]
fn _01_00_maps_every_valid_level_value() {
  for level in [1u8, 2, 3, 4, 5, 6, 7, 8, 9, 10, 12, 14, 30] {
    let parsed = osm_admin_level::try_from(level)
      .map(|l| l.value())
      .unwrap_or_else(|_| panic!("level {level} deveria ser valido"));
    assert_eq!(parsed, level);
  }
}

#[test]
fn _01_01_unknown_level_value_returns_error_with_input() {
  for level in [0u8, 11, 13, 15, 29, 31, 255] {
    assert!(
      matches!(osm_admin_level::try_from(level), Err(v) if v == level),
      "level {level} deveria ser invalido"
    );
  }
}

#[test]
fn the_first_override_for_a_level_wins() {
  let overrides = [
    extraction_rules {
      level: 10,
      included: vec![way_filter::include_highway_tertiary],
      exclude: vec![],
    },
    extraction_rules {
      level: 10,
      included: vec![way_filter::include_highway_secondary],
      exclude: vec![way_filter::exclude_leisure_park],
    },
  ];
  let (kept, exclude) = resolve_rules(10, &overrides);
  assert_eq!(kept, vec![way_filter::include_highway_tertiary]);
  assert!(exclude.is_empty());
}

#[test]
fn defaults_name_the_level_10_and_12_filters_only() {
  assert_eq!(
    default_include(10),
    vec![way_filter::include_place_neighbourhood, way_filter::include_place_suburb]
  );
  assert!(default_include(12).is_empty());
  assert_eq!(default_exclude(12).len(), 5);
  assert!(default_exclude(10).is_empty());
}

#[test]
fn a_level_value_round_trips_through_its_number() {
  assert!(matches!(osm_admin_level::try_from(30), Ok(osm_admin_level::house_numbers)));
  assert_eq!(osm_admin_level::house_numbers.value(), 30);
}
