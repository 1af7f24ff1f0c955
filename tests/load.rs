use reverse_geocoder::{parse_coordinate, GeocoderError, Locations, RawRow, ReverseGeocoder};

fn parse(s: &str) -> Option<i32> {
    parse_coordinate(s.as_bytes())
}

fn row(lat: &str, lon: &str, name: &str) -> RawRow {
    RawRow {
        lat: lat.as_bytes().to_vec(),
        lon: lon.as_bytes().to_vec(),
        name: name.to_string(),
        admin1: "Minnesota".to_string(),
        admin2: "Hennepin County".to_string(),
        admin3: "US".to_string(),
    }
}

#[test]
fn parses_plain_coordinates() {
    assert_eq!(parse("44.9483"), Some(449483000));
    assert_eq!(parse("-93.34801"), Some(-933480100));
    assert_eq!(parse("+1.5"), Some(15000000));
    assert_eq!(parse("0"), Some(0));
    assert_eq!(parse("-0"), Some(0));
    assert_eq!(parse("180"), Some(1800000000));
    assert_eq!(parse("0000000000044.5"), Some(445000000));
}

#[test]
fn drops_digits_past_the_seventh() {
    assert_eq!(parse("12.123456789"), Some(121234567));
    assert_eq!(parse("-0.00000009"), Some(0));
    assert_eq!(parse("1.0000001"), Some(10000001));
}

#[test]
fn coordinate_range_edges() {
    assert_eq!(parse("214.7483647"), Some(i32::MAX));
    assert_eq!(parse("214.7483648"), None);
    assert_eq!(parse("-214.7483648"), Some(i32::MIN));
    assert_eq!(parse("-214.7483649"), None);
    assert_eq!(parse("300"), None);
    assert_eq!(parse("99999999999999999999"), None);
}

#[test]
fn rejects_malformed_text() {
    for bad in ["", "-", "+", ".5", "5.", "1e5", "abc", "1.2.3", " 1", "1 ", "--1", "NaN", "inf", "4a.5", "4.5x"] {
        assert_eq!(parse(bad), None, "{:?}", bad);
    }
}

#[test]
fn loads_rows_in_order() {
    let rows = vec![
        row("44.9483", "-93.34801", "Saint Louis Park"),
        row("44.88330", "-93.28300", "Richfield"),
    ];
    let loc = Locations::from_rows(&rows).unwrap();
    assert_eq!(loc.len(), 2);
    assert_eq!(loc.get(0).lat, 449483000);
    assert_eq!(loc.get(0).lon, -933480100);
    assert_eq!(loc.get(0).name, "Saint Louis Park");
    assert_eq!(loc.get(0).admin2, "Hennepin County");
    assert_eq!(loc.get(1).name, "Richfield");
    let g = ReverseGeocoder::new(loc).unwrap();
    assert_eq!(g.search(&[449627860, -933447220]).unwrap().name, "Saint Louis Park");
}

#[test]
fn malformed_row_fails_the_load() {
    let rows = vec![
        row("44.9483", "-93.34801", "Saint Louis Park"),
        row("44.88330", "west", "Richfield"),
        row("north", "-93.0", "Elsewhere"),
    ];
    assert!(matches!(Locations::from_rows(&rows), Err(GeocoderError::DataFormat { row: 1 })));
    let rows = vec![row("", "-93.0", "Nowhere")];
    assert!(matches!(Locations::from_rows(&rows), Err(GeocoderError::DataFormat { row: 0 })));
}

#[test]
fn no_rows_load_an_empty_dataset() {
    let loc = Locations::from_rows(&Vec::new()).unwrap();
    assert_eq!(loc.len(), 0);
    assert!(matches!(ReverseGeocoder::new(loc), Err(GeocoderError::EmptyDataset)));
}
