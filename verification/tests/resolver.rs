use zkip::countries::{parse_country_table, parse_excluded_countries, ResolveError};

fn table_lines() -> Vec<String> {
    vec![
        "name,alpha2,alpha3,numeric".to_string(),
        "France,FR,FRA,250".to_string(),
        "United States,US,USA,840".to_string(),
        "Germany,de,DEU,276".to_string(),
    ]
}

#[test]
fn parses_reference_table() {
    let table = parse_country_table(&table_lines());
    assert_eq!(table.len(), 3);
    assert_eq!(table[0].alpha2, "FR");
    assert_eq!(table[0].numeric, 250);
    // the alpha-2 column is upper-cased as loaded
    assert_eq!(table[2].alpha2, "DE");
    assert_eq!(table[2].numeric, 276);
}

#[test]
fn table_skips_rows_that_do_not_fit() {
    let lines = vec![
        "header".to_string(),
        "too,short".to_string(),
        "France,FR,FRA,250".to_string(),
        "Nowhere,XX,XXX,not-a-number".to_string(),
        "TooBig,YY,YYY,70000".to_string(),
    ];
    let table = parse_country_table(&lines);
    assert_eq!(table.len(), 1);
    assert_eq!(table[0].alpha2, "FR");
}

#[test]
fn later_table_row_overrides_earlier() {
    let lines = vec![
        "header".to_string(),
        "Old,FR,FRA,111".to_string(),
        "New,FR,FRA,250".to_string(),
    ];
    let table = parse_country_table(&lines);
    let (_, nums) = parse_excluded_countries("FR", &table).unwrap();
    assert_eq!(nums, vec![250]);
}

#[test]
fn resolves_codes_in_order() {
    let table = parse_country_table(&table_lines());
    let (alphas, nums) = parse_excluded_countries("FR,US", &table).unwrap();
    assert_eq!(alphas, vec!["FR".to_string(), "US".to_string()]);
    assert_eq!(nums, vec![250, 840]);
}

#[test]
fn resolution_is_case_insensitive() {
    let table = parse_country_table(&table_lines());
    assert_eq!(
        parse_excluded_countries("fr", &table).unwrap(),
        parse_excluded_countries("FR", &table).unwrap()
    );
    let (alphas, nums) = parse_excluded_countries(" fr , uS ", &table).unwrap();
    assert_eq!(alphas, vec!["FR".to_string(), "US".to_string()]);
    assert_eq!(nums, vec![250, 840]);
}

#[test]
fn duplicates_are_preserved() {
    let table = parse_country_table(&table_lines());
    let (alphas, nums) = parse_excluded_countries("FR,FR,US,FR", &table).unwrap();
    assert_eq!(alphas, vec!["FR", "FR", "US", "FR"]);
    assert_eq!(nums, vec![250, 250, 840, 250]);
}

#[test]
fn blank_entries_are_skipped() {
    let table = parse_country_table(&table_lines());
    let (alphas, nums) = parse_excluded_countries("FR,, ,US", &table).unwrap();
    assert_eq!(alphas, vec!["FR", "US"]);
    assert_eq!(nums, vec![250, 840]);
}

#[test]
fn unknown_code_fails() {
    let table = parse_country_table(&table_lines());
    assert_eq!(
        parse_excluded_countries("ZZ", &table),
        Err(ResolveError::UnknownCountryCode)
    );
    assert_eq!(
        parse_excluded_countries("FR,ZZ", &table),
        Err(ResolveError::UnknownCountryCode)
    );
}

#[test]
fn empty_input_fails() {
    let table = parse_country_table(&table_lines());
    assert_eq!(parse_excluded_countries("", &table), Err(ResolveError::EmptyCountrySet));
    assert_eq!(parse_excluded_countries(" , ,", &table), Err(ResolveError::EmptyCountrySet));
}
