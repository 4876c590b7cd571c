use geolite::extract::house_numbers::streets_named;

#[test]
fn a_named_street_is_matched_without_regard_to_case() {
  let names = vec![
    "Rua Augusta".to_string(),
    "Rua do Ouro".to_string(),
    "RUA AUGUSTA".to_string(),
  ];
  assert_eq!(streets_named(&names, Some("rua augusta")), vec![0, 2]);
  assert_eq!(streets_named(&names, Some("Rua da Prata")), Vec::<usize>::new());
  assert_eq!(streets_named(&names, None), Vec::<usize>::new());
  assert_eq!(streets_named(&vec!["ÁGUA".to_string()], Some("água")), vec![0]);
}
