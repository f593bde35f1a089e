use zkip::ranges::{load_ip_ranges_for_countries, DatasetError};

fn codes(cs: &[&str]) -> Vec<String> {
    cs.iter().map(|c| c.to_string()).collect()
}

fn lines(ls: &[&str]) -> Vec<String> {
    ls.iter().map(|l| l.to_string()).collect()
}

#[test]
fn loads_matching_rows() {
    let ls = lines(&[
        "1534132224,1534140415,FR",
        "16777216,16777471,US",
        "3232235520,3232301055,FR,extra,fields",
    ]);
    let ranges = load_ip_ranges_for_countries(&ls, &codes(&["FR"])).unwrap();
    assert_eq!(ranges, vec![(1534132224, 1534140415), (3232235520, 3232301055)]);
}

#[test]
fn country_match_is_case_insensitive() {
    let ls = lines(&["1,2,fr"]);
    let ranges = load_ip_ranges_for_countries(&ls, &codes(&["FR"])).unwrap();
    assert_eq!(ranges, vec![(1, 2)]);
}

#[test]
fn empty_dataset_gives_no_ranges() {
    let ranges = load_ip_ranges_for_countries(&lines(&[]), &codes(&["FR"])).unwrap();
    assert_eq!(ranges, vec![]);
}

#[test]
fn short_row_fails_the_load() {
    let ls = lines(&["1534132224,1534140415,FR", "1,2"]);
    assert_eq!(
        load_ip_ranges_for_countries(&ls, &codes(&["FR"])),
        Err(DatasetError::WrongFieldCount)
    );
}

#[test]
fn bad_bound_fails_the_load() {
    let ls = lines(&["abc,2,FR"]);
    assert_eq!(
        load_ip_ranges_for_countries(&ls, &codes(&["FR"])),
        Err(DatasetError::InvalidBound)
    );
    // a malformed row fails the load even when its country is not requested
    let ls = lines(&["1,99999999999,DE"]);
    assert_eq!(
        load_ip_ranges_for_countries(&ls, &codes(&["FR"])),
        Err(DatasetError::InvalidBound)
    );
}
