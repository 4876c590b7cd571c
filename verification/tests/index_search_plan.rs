use geolite::index::search_plan::{
  boost_of, plan_clause, plan_for_tokens, plan_query, search_hits, search_plan_for, text_field,
};

fn strings(v: &[&str]) -> Vec<String> {
  v.iter().map(|s| s.to_string()).collect()
}

fn term(field: text_field, token: &str, boost: boost_of) -> plan_clause {
  plan_clause { must: false, query: plan_query::term { field, token: token.to_string(), boost } }
}

fn fuzzy(field: text_field, token: &str, distance: u8, boost: boost_of) -> plan_clause {
  plan_clause {
    must: false,
    query: plan_query::fuzzy { field, token: token.to_string(), distance, boost },
  }
}

#[test]
fn a_query_without_tokens_plans_nothing() {
  assert!(plan_for_tokens(&Vec::new(), &Vec::new(), &Vec::new(), None, None).is_none());
  assert!(search_plan_for("  ,;  ", None, None).is_none());
}

#[test]
fn the_strict_query_requires_every_token_and_adds_the_bonuses() {
  let plan = plan_for_tokens(
    &strings(&["rua", "alfa"]),
    &strings(&["Rua", "Alfa"]),
    &strings(&["rua", "alfa"]),
    Some(&[10, 12]),
    Some(&[7]),
  )
  .expect("a plan");
  let expected = vec![
    plan_clause { must: true, query: plan_query::exact_in_name_or_hier { token: "rua".to_string() } },
    plan_clause { must: true, query: plan_query::exact_in_name_or_hier { token: "alfa".to_string() } },
    plan_clause {
      must: false,
      query: plan_query::phrase {
        field: text_field::name,
        tokens: strings(&["rua", "alfa"]),
        boost: boost_of::name_phrase,
      },
    },
    plan_clause {
      must: false,
      query: plan_query::phrase {
        field: text_field::hier,
        tokens: strings(&["rua", "alfa"]),
        boost: boost_of::hier_phrase,
      },
    },
    term(text_field::name_strict, "Rua", boost_of::name_strict),
    term(text_field::hier_strict, "Rua", boost_of::hier_strict),
    term(text_field::name_strict, "Alfa", boost_of::name_strict),
    term(text_field::hier_strict, "Alfa", boost_of::hier_strict),
    term(text_field::name_lower, "rua", boost_of::name_lower),
    term(text_field::hier_lower, "rua", boost_of::hier_lower),
    term(text_field::name_lower, "alfa", boost_of::name_lower),
    term(text_field::hier_lower, "alfa", boost_of::hier_lower),
    plan_clause { must: true, query: plan_query::admin_levels { levels: vec![10, 12] } },
    plan_clause { must: true, query: plan_query::ids { ids: vec![7] } },
  ];
  assert_eq!(plan.strict, expected);
}

#[test]
fn the_loose_query_tries_each_token_exact_and_fuzzy_in_both_fields() {
  let plan = plan_for_tokens(&strings(&["sp", "paulo"]), &Vec::new(), &Vec::new(), None, None)
    .expect("a plan");
  let expected = vec![
    term(text_field::name, "sp", boost_of::name_exact),
    fuzzy(text_field::name, "sp", 1, boost_of::name_fuzzy),
    term(text_field::hier, "sp", boost_of::hier_exact),
    fuzzy(text_field::hier, "sp", 1, boost_of::hier_fuzzy),
    term(text_field::name, "paulo", boost_of::name_exact),
    fuzzy(text_field::name, "paulo", 2, boost_of::name_fuzzy),
    term(text_field::hier, "paulo", boost_of::hier_exact),
    fuzzy(text_field::hier, "paulo", 2, boost_of::hier_fuzzy),
  ];
  assert_eq!(plan.loose, expected);
}

#[test]
fn a_single_token_gets_no_phrase_bonus() {
  let plan = plan_for_tokens(&strings(&["lisboa"]), &strings(&["Lisboa"]), &strings(&["lisboa"]), None, None)
    .expect("a plan");
  assert_eq!(plan.strict.len(), 1 + 2 + 2);
  assert!(!plan
    .strict
    .iter()
    .any(|c| matches!(c.query, plan_query::phrase { .. })));
}

#[test]
fn the_query_is_tokenized_folded_as_written_and_lower_cased() {
  let plan = search_plan_for("Praça da Sé", None, None).expect("a plan");
  assert_eq!(
    plan.strict[0],
    plan_clause { must: true, query: plan_query::exact_in_name_or_hier { token: "praca".to_string() } }
  );
  assert!(plan.strict.contains(&term(text_field::name_strict, "Praça", boost_of::name_strict)));
  assert!(plan.strict.contains(&term(text_field::name_lower, "praça", boost_of::name_lower)));
  assert!(plan.strict.contains(&term(text_field::hier_lower, "sé", boost_of::hier_lower)));
  assert_eq!(plan.loose[0], term(text_field::name, "praca", boost_of::name_exact));
}

#[test]
fn loose_hits_are_looked_for_only_when_strict_finds_nothing() {
  let mut ran = false;
  let hits = search_hits(vec![(1i64, 2.0f32)], || {
    ran = true;
    vec![(9, 1.0)]
  });
  assert_eq!(hits, vec![(1, 2.0)]);
  assert!(!ran);
  let hits = search_hits(Vec::new(), || vec![(9i64, 1.0f32)]);
  assert_eq!(hits, vec![(9, 1.0)]);
}
